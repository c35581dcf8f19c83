//! Geometry-driven codec selection and dispatch over the engines.
//!
//! [`Profile::resolve`] and [`Profile::recommended`] turn a request into a
//! validated [`Profile`]. [`decoder`], [`batch_decoder`], [`batch_encoder`] and
//! [`incremental_encoder`] build a codec for a profile, so that callers who do
//! not want to name a concrete engine still get the trait API. The concrete
//! engine types remain public.

use vstd::prelude::*;

use crate::afft::batch::BatchDecodeScratch;
use crate::afft::code::{afft_code, afft_fault, padded, padded_facts};
use crate::afft::profile::zeroed_bytes;
use crate::afft;
use crate::algebra::domains::span_size;
use crate::algebra::{gf256, gf65536};
use crate::batch::codec::{BatchCodec, DecodeScratch};
use crate::codec::{
    config_fault, encode_fault, encode_lengths_are_judged, finalization_is_judged, finalize_fault,
    sized_fault, zero_block, BatchDecoder, BatchEncoder, Code, Coded, Decoder, Engine, Field,
    Geometry, IncrementalEncoder, Profile,
};
use crate::decoder::cache::RecipeCache;
use crate::decoder::streaming::LazyDecoderState;
use crate::encoder::streaming::StreamingEncoder;
use crate::error::{ConfigError, DecodeError, EncodeError};
use crate::matrices::cauchy::CauchyView;
use crate::matrices::coding_matrix::point_code;
use crate::matrices::good_cauchy::GoodCauchyView;
use crate::stream::{PushOutcome, SymbolSink};
use crate::tower::cauchy::{TowerCauchyView, MAX_SYMBOLS};
use crate::tower;
use crate::{recommended_gf16_engine, recommended_gf8_engine, Gf16Engine, Gf8Engine};

verus! {

/// Maximum `k + m` for an engine.
///
/// Fixed by the codeword geometry each engine can address: Good Cauchy has one
/// point per nonzero field element, Tower too, and the other engines one per
/// field element.
pub fn engine_capacity(engine: Engine) -> (r: usize)
    ensures
        r == engine.capacity_spec(),
        engine == Engine::GoodCauchy ==> r == 255,
        engine == Engine::StandardCauchy || engine == Engine::Gf8Afft ==> r == 256,
        engine == Engine::Tower ==> r == 65535,
        engine == Engine::Gf16Afft ==> r == 65536,
{
    engine.capacity()
}

/// Why [`Profile::resolve`] refuses a request.
pub open spec fn profile_fault(engine: Engine, k: int, m: int, symbol_len: int) -> Option<
    ConfigError,
> {
    config_fault(k, m, symbol_len, engine.element_width(), engine.capacity_spec())
}

/// The engine [`Profile::recommended`] picks.
pub open spec fn recommended_engine(field: Field, k: int, m: int) -> Engine {
    match field {
        Field::Gf256 => if k + m > 255 {
            Engine::StandardCauchy
        } else {
            Engine::GoodCauchy
        },
        Field::Gf65536 => if k + m > 256 || 3 * m >= k {
            Engine::Gf16Afft
        } else {
            Engine::Tower
        },
    }
}

impl Profile {
    /// Validates a `(engine, k, m, symbol_len)` request into a [`Profile`].
    ///
    /// Applies the same dimension, capacity and symbol-length rules as the
    /// concrete constructors.
    pub fn resolve(engine: Engine, k: usize, m: usize, symbol_len: usize) -> (r: Result<
        Self,
        ConfigError,
    >)
        ensures
            match r {
                Ok(profile) => profile_fault(engine, k as int, m as int, symbol_len as int) is None
                    && profile@ == (Geometry {
                    engine,
                    k: k as int,
                    m: m as int,
                    symbol_len: symbol_len as int,
                }),
                Err(e) => profile_fault(engine, k as int, m as int, symbol_len as int) == Some(e),
            },
            r is Ok <==> {
                &&& k >= 1
                &&& m >= 1
                &&& symbol_len >= 1
                &&& engine == Engine::Tower || engine == Engine::Gf16Afft ==> symbol_len % 2 == 0
                &&& engine == Engine::GoodCauchy ==> k + m <= 255
                &&& engine == Engine::StandardCauchy ==> k + m <= 256
                &&& engine == Engine::Tower ==> k + m <= 65535
                &&& engine == Engine::Gf8Afft ==> k + m <= 256
                &&& engine == Engine::Gf16Afft ==> k + m <= 65536
            },
            r == Err::<Self, ConfigError>(ConfigError::ZeroDimension) <==> k == 0 || m == 0,
            r == Err::<Self, ConfigError>(ConfigError::ZeroSymbolLen) <==> k != 0 && m != 0
                && symbol_len == 0,
            r == Err::<Self, ConfigError>(ConfigError::OddSymbolLen) <==> k != 0 && m != 0
                && symbol_len % 2 == 1 && (engine == Engine::Tower || engine == Engine::Gf16Afft),
            r matches Err(ConfigError::TooManySymbols { cap }) ==> k + m > cap && {
                &&& engine == Engine::GoodCauchy ==> cap == 255
                &&& engine == Engine::StandardCauchy ==> cap == 256
                &&& engine == Engine::Tower ==> cap == 65535
                &&& engine == Engine::Gf8Afft ==> cap == 256
                &&& engine == Engine::Gf16Afft ==> cap == 65536
            },
            !(r matches Err(ConfigError::UnsupportedMode { .. })),
    {
        if k == 0 || m == 0 {
            return Err(ConfigError::ZeroDimension);
        }
        if symbol_len == 0 {
            return Err(ConfigError::ZeroSymbolLen);
        }
        if engine.field() == Field::Gf65536 && symbol_len % 2 != 0 {
            return Err(ConfigError::OddSymbolLen);
        }
        let cap: usize = engine_capacity(engine);
        if k > cap || m > cap - k {
            return Err(ConfigError::TooManySymbols { cap });
        }
        Ok(Self::from_parts(engine, k, m, symbol_len))
    }

    /// Picks a geometry-appropriate engine for `field` and resolves it.
    ///
    /// GF(256): Good Cauchy when `k + m <= 255` (enables streaming), else
    /// Standard Cauchy. GF(65536): [`recommended_gf16_engine`].
    pub fn recommended(field: Field, k: usize, m: usize, symbol_len: usize) -> (r: Result<
        Self,
        ConfigError,
    >)
        ensures
            match r {
                Ok(profile) => profile_fault(
                    recommended_engine(field, k as int, m as int),
                    k as int,
                    m as int,
                    symbol_len as int,
                ) is None && profile@ == (Geometry {
                    engine: recommended_engine(field, k as int, m as int),
                    k: k as int,
                    m: m as int,
                    symbol_len: symbol_len as int,
                }),
                Err(e) => profile_fault(
                    recommended_engine(field, k as int, m as int),
                    k as int,
                    m as int,
                    symbol_len as int,
                ) == Some(e),
            },
            r matches Ok(profile) ==> {
                &&& profile@.k == k
                &&& profile@.m == m
                &&& profile@.symbol_len == symbol_len
                &&& field == Field::Gf256 ==> profile@.engine == if k + m > 255 {
                    Engine::StandardCauchy
                } else {
                    Engine::GoodCauchy
                }
                &&& field == Field::Gf65536 ==> profile@.engine == if k + m > 256 || 3 * m >= k {
                    Engine::Gf16Afft
                } else {
                    Engine::Tower
                }
            },
            r is Ok <==> {
                &&& k >= 1
                &&& m >= 1
                &&& symbol_len >= 1
                &&& field == Field::Gf256 ==> k + m <= 256
                &&& field == Field::Gf65536 ==> symbol_len % 2 == 0 && k + m <= 65536
            },
            r == Err::<Self, ConfigError>(ConfigError::ZeroDimension) <==> k == 0 || m == 0,
            r == Err::<Self, ConfigError>(ConfigError::ZeroSymbolLen) <==> k != 0 && m != 0
                && symbol_len == 0,
            r == Err::<Self, ConfigError>(ConfigError::OddSymbolLen) <==> k != 0 && m != 0
                && symbol_len % 2 == 1 && field == Field::Gf65536,
            r matches Err(ConfigError::TooManySymbols { cap }) ==> {
                &&& field == Field::Gf256 ==> cap == 256
                &&& field == Field::Gf65536 ==> cap == 65536
            },
            !(r matches Err(ConfigError::UnsupportedMode { .. })),
    {
        let engine: Engine = match field {
            Field::Gf256 => match recommended_gf8_engine(k, m) {
                Gf8Engine::GoodCauchy => Engine::GoodCauchy,
                Gf8Engine::StandardCauchy => Engine::StandardCauchy,
                Gf8Engine::Afft => Engine::Gf8Afft,
            },
            Field::Gf65536 => match recommended_gf16_engine(k, m) {
                Gf16Engine::Tower => Engine::Tower,
                Gf16Engine::Afft => Engine::Gf16Afft,
            },
        };
        Self::resolve(engine, k, m, symbol_len)
    }
}

/// The recommended engine codes over the requested field and is never the
/// GF(256) transform, and its profile is accepted whenever any engine over the
/// field accepts the geometry.
pub proof fn recommendation_serves_the_field(
    field: Field,
    k: int,
    m: int,
    symbol_len: int,
    engine: Engine,
)
    requires
        k >= 0,
        m >= 0,
        engine.field_spec() == field,
        profile_fault(engine, k, m, symbol_len) is None,
    ensures
        recommended_engine(field, k, m).field_spec() == field,
        recommended_engine(field, k, m) != Engine::Gf8Afft,
        profile_fault(recommended_engine(field, k, m), k, m, symbol_len) is None,
{
}

/// A request is accepted exactly when the block is not empty, its symbols are
/// whole field elements, and its engine has a point for every codeword position:
/// one per nonzero element of the field for Good Cauchy and Tower, one per
/// element for the others.
pub proof fn accepted_requests(engine: Engine, k: int, m: int, symbol_len: int)
    requires
        k >= 0,
        m >= 0,
        symbol_len >= 0,
    ensures
        profile_fault(engine, k, m, symbol_len) is None <==> {
            &&& k >= 1
            &&& m >= 1
            &&& symbol_len >= 1
            &&& engine == Engine::Tower || engine == Engine::Gf16Afft ==> symbol_len % 2 == 0
            &&& engine == Engine::GoodCauchy ==> k + m <= 255
            &&& engine == Engine::StandardCauchy ==> k + m <= 256
            &&& engine == Engine::Tower ==> k + m <= 65535
            &&& engine == Engine::Gf8Afft ==> k + m <= 256
            &&& engine == Engine::Gf16Afft ==> k + m <= 65536
        },
{
}

/// Widening the symbols of an accepted request by a whole number of elements
/// keeps it accepted, and so does moving positions between data and repairs, or
/// giving some up, as long as both keep one.
pub proof fn acceptance_depends_on_codeword_length(
    engine: Engine,
    k: int,
    m: int,
    symbol_len: int,
    other_k: int,
    other_m: int,
    other_len: int,
)
    requires
        profile_fault(engine, k, m, symbol_len) is None,
        k >= 1,
        m >= 1,
        symbol_len >= 1,
        other_k >= 1,
        other_m >= 1,
        other_k + other_m <= k + m,
        other_len >= 1,
        other_len % 2 == symbol_len % 2,
    ensures
        profile_fault(engine, other_k, other_m, other_len) is None,
{
}

/// The recommendation depends on the geometry alone: over GF(256) the standard
/// matrix exactly when the codeword needs the position that the other lacks,
/// over GF(65536) the transform exactly for more than 256 positions or at least
/// one repair for every three data symbols.
pub proof fn recommendation_follows_geometry(k: int, m: int)
    requires
        k >= 0,
        m >= 0,
    ensures
        recommended_engine(Field::Gf256, k, m) == Engine::StandardCauchy <==> k + m > 255,
        recommended_engine(Field::Gf256, k, m) == Engine::GoodCauchy <==> k + m <= 255,
        recommended_engine(Field::Gf65536, k, m) == Engine::Gf16Afft <==> k + m > 256 || 3 * m
            >= k,
        recommended_engine(Field::Gf65536, k, m) == Engine::Tower <==> k + m <= 256 && 3 * m < k,
{
}

/// The code of a geometry.
pub open spec fn geometry_code(geometry: Geometry) -> Code {
    match geometry.engine {
        Engine::StandardCauchy => point_code::<gf256::GfElem, CauchyView>(
            geometry.k,
            geometry.m,
            geometry.symbol_len,
        ),
        Engine::GoodCauchy => point_code::<gf256::GfElem, GoodCauchyView>(
            geometry.k,
            geometry.m,
            geometry.symbol_len,
        ),
        Engine::Tower => point_code::<gf65536::GfElem, TowerCauchyView>(
            geometry.k,
            geometry.m,
            geometry.symbol_len,
        ),
        Engine::Gf8Afft => afft_code::<gf256::GfElem>(
            geometry.k,
            geometry.m,
            geometry.symbol_len,
        ),
        Engine::Gf16Afft => afft_code::<gf65536::GfElem>(
            geometry.k,
            geometry.m,
            geometry.symbol_len,
        ),
    }
}

/// Why the engine of a geometry cannot be constructed.
pub open spec fn construction_fault(geometry: Geometry) -> Option<ConfigError> {
    match geometry.engine {
        Engine::StandardCauchy => config_fault(
            geometry.k,
            geometry.m,
            geometry.symbol_len,
            1,
            256,
        ),
        Engine::GoodCauchy => config_fault(geometry.k, geometry.m, geometry.symbol_len, 1, 255),
        Engine::Tower => sized_fault(
            geometry.k,
            geometry.m,
            geometry.symbol_len,
            2,
            MAX_SYMBOLS,
        ),
        Engine::Gf8Afft => afft_fault::<gf256::GfElem>(
            geometry.k,
            geometry.m,
            geometry.symbol_len,
        ),
        Engine::Gf16Afft => afft_fault::<gf65536::GfElem>(
            geometry.k,
            geometry.m,
            geometry.symbol_len,
        ),
    }
}

/// A codeword of the geometry can be addressed, if its engine relies on that.
pub open spec fn buildable(geometry: Geometry) -> bool {
    geometry.engine == Engine::StandardCauchy || geometry.engine == Engine::GoodCauchy ==> (
    construction_fault(geometry) is None ==> (geometry.k + geometry.m) * geometry.symbol_len
        <= usize::MAX)
}

/// The repair symbols of the geometry can be addressed, if its engine relies on
/// that.
pub open spec fn feedable(geometry: Geometry) -> bool {
    geometry.engine == Engine::GoodCauchy && construction_fault(geometry) is None ==> geometry.m
        * geometry.symbol_len <= usize::MAX
}

/// A request that [`Profile::resolve`] accepts is one that the constructors of
/// its engine accept, as long as the rows of its domain can be addressed.
pub proof fn resolved_profiles_are_constructible(geometry: Geometry)
    requires
        profile_fault(geometry.engine, geometry.k, geometry.m, geometry.symbol_len) is None,
        geometry.k >= 0,
        geometry.m >= 0,
        geometry.symbol_len >= 0,
        padded(geometry.k + geometry.m) * geometry.symbol_len <= usize::MAX,
    ensures
        construction_fault(geometry) is None,
        buildable(geometry),
        feedable(geometry),
{
    padded_facts(geometry.k + geometry.m);
    transform_sizes();
    let m = geometry.m;
    let n = geometry.k + m;
    let p = padded(n);
    let l = geometry.symbol_len;
    assert(m * l <= n * l <= p * l) by (nonlinear_arith)
        requires
            m <= n <= p,
            0 <= l,
    ;
}

/// [`Profile::resolve`] and the constructors of the engine judge a geometry
/// alike: they accept the same ones and refuse the others for the same reason,
/// as long as the rows of the domain can be addressed. What the constructors
/// accept, [`Profile::resolve`] accepts in any case.
pub proof fn resolution_agrees_with_construction(geometry: Geometry)
    requires
        geometry.k >= 0,
        geometry.m >= 0,
        geometry.symbol_len >= 0,
    ensures
        construction_fault(geometry) is None ==> profile_fault(
            geometry.engine,
            geometry.k,
            geometry.m,
            geometry.symbol_len,
        ) is None,
        padded(geometry.k + geometry.m) * geometry.symbol_len <= usize::MAX ==> construction_fault(
            geometry,
        ) == profile_fault(geometry.engine, geometry.k, geometry.m, geometry.symbol_len),
{
    transform_sizes();
    if padded(geometry.k + geometry.m) * geometry.symbol_len <= usize::MAX && profile_fault(
        geometry.engine,
        geometry.k,
        geometry.m,
        geometry.symbol_len,
    ) is None {
        resolved_profiles_are_constructible(geometry);
    }
}

/// An engine can be constructed exactly for a block that is not empty, of symbols
/// that are whole elements, with a point for every codeword position, and whose
/// rows can be addressed where the engine stores them. A refusal of the codeword
/// length names the number of points.
pub proof fn constructible_geometries(geometry: Geometry)
    requires
        geometry.k >= 0,
        geometry.m >= 0,
        geometry.symbol_len >= 0,
    ensures
        construction_fault(geometry) is None <==> {
            &&& geometry.k >= 1
            &&& geometry.m >= 1
            &&& geometry.symbol_len >= 1
            &&& geometry.engine == Engine::GoodCauchy ==> geometry.k + geometry.m <= 255
            &&& geometry.engine == Engine::StandardCauchy ==> geometry.k + geometry.m <= 256
            &&& geometry.engine == Engine::Tower
                ==> geometry.symbol_len % 2 == 0 && geometry.k + geometry.m <= 65535 && (geometry.k
                + geometry.m) * geometry.symbol_len <= usize::MAX
            &&& geometry.engine == Engine::Gf8Afft
                ==> geometry.k + geometry.m <= 256 && padded(geometry.k + geometry.m)
                * geometry.symbol_len <= usize::MAX
            &&& geometry.engine == Engine::Gf16Afft
                ==> geometry.symbol_len % 2 == 0 && geometry.k + geometry.m <= 65536
                && padded(geometry.k + geometry.m) * geometry.symbol_len <= usize::MAX
        },
        construction_fault(geometry) == Some(ConfigError::ZeroDimension) <==> geometry.k == 0
            || geometry.m == 0,
        construction_fault(geometry) == Some(ConfigError::ZeroSymbolLen) <==> geometry.k != 0
            && geometry.m != 0 && geometry.symbol_len == 0,
        construction_fault(geometry) matches Some(ConfigError::TooManySymbols { cap }) ==> {
            &&& geometry.engine == Engine::GoodCauchy ==> cap == 255
            &&& geometry.engine == Engine::StandardCauchy ==> cap == 256
            &&& geometry.engine == Engine::Tower ==> cap == 65535
            &&& geometry.engine == Engine::Gf8Afft ==> cap == 256
            &&& geometry.engine == Engine::Gf16Afft ==> cap == 65536
        },
        !(construction_fault(geometry) matches Some(ConfigError::UnsupportedMode { .. })),
        (geometry.k + geometry.m) * geometry.symbol_len <= usize::MAX ==> buildable(geometry),
        geometry.m * geometry.symbol_len <= usize::MAX ==> feedable(geometry),
{
    transform_sizes();
}

/// Number of points of the two transform fields.
proof fn transform_sizes()
    ensures
        span_size(8) == 256,
        span_size(16) == 65536,
{
    reveal_with_fuel(span_size, 17);
}

/// What a constructor of a decoder reports for a geometry.
pub open spec fn constructed(geometry: Geometry, allocates: bool, r: Result<Code, ConfigError>) -> bool {
    match construction_fault(geometry) {
        Some(e) => r == Err::<Code, ConfigError>(e),
        None => match r {
            Ok(code) => code == geometry_code(geometry),
            Err(e) => allocates && e == (ConfigError::TooManySymbols {
                cap: geometry.engine.capacity_spec(),
            }),
        },
    }
}

/// Bytes of the payload storage that an engine's decoder asks the allocator for.
pub open spec fn requested_storage(geometry: Geometry) -> int {
    match geometry.engine {
        Engine::StandardCauchy => 0,
        Engine::GoodCauchy => 0,
        Engine::Tower => (geometry.k + geometry.m) * geometry.symbol_len,
        Engine::Gf8Afft => padded(geometry.k + geometry.m) * geometry.symbol_len,
        Engine::Gf16Afft => padded(geometry.k + geometry.m) * geometry.symbol_len,
    }
}

/// Engines whose decoder reports an allocation that the allocator refuses.
pub open spec fn reports_allocation(engine: Engine) -> bool {
    engine == Engine::Tower || engine == Engine::Gf8Afft || engine == Engine::Gf16Afft
}

/// A decoder for any engine, selected at runtime from a [`Profile`].
pub enum AnyDecoder {
    /// GF(256) Standard Cauchy.
    StandardCauchy(LazyDecoderState<CauchyView>),
    /// GF(256) Good Cauchy.
    GoodCauchy(LazyDecoderState<GoodCauchyView>),
    /// GF(65536) tower.
    Tower(tower::LazyDecoderState),
    /// GF(256) additive FFT.
    Gf8Afft(afft::Gf8Decoder),
    /// GF(65536) additive FFT.
    Gf16Afft(afft::Gf16Decoder),
}

/// Reusable decode scratch for [`AnyDecoder`], matching its active engine.
pub enum AnyDecodeScratch {
    /// GF(256) recipe cache (shared by both Cauchy variants).
    Cauchy(RecipeCache),
    /// GF(65536) tower reconstruction workspace.
    Tower(tower::decoder::DecodeScratch),
    /// GF(256) additive-FFT transform scratch.
    Gf8Afft(afft::DecodeScratch<gf256::GfElem>),
    /// GF(65536) additive-FFT transform scratch.
    Gf16Afft(afft::DecodeScratch<gf65536::GfElem>),
}

/// Builds a decoder for `profile`.
pub fn decoder(profile: &Profile) -> (r: Result<AnyDecoder, ConfigError>)
    requires
        buildable(profile@),
    ensures
        constructed(
            profile@,
            reports_allocation(profile@.engine),
            match r {
                Ok(decoder) => Ok(decoder.code()),
                Err(e) => Err(e),
            },
        ),
        requested_storage(profile@) > isize::MAX ==> r is Err,
        construction_fault(profile@) is None && r is Err ==> call_ensures(
            zeroed_bytes,
            (requested_storage(profile@) as usize,),
            None::<Vec<u8>>,
        ),
        r matches Ok(decoder) ==> decoder.valid() && decoder.stored() == Map::<
            int,
            Seq<u8>,
        >::empty() && decoder.received_total() == 0,
        r is Ok ==> {
            &&& profile@.k >= 1
            &&& profile@.m >= 1
            &&& profile@.symbol_len >= 1
            &&& profile@.engine == Engine::GoodCauchy ==> profile@.k + profile@.m <= 255
            &&& profile@.engine == Engine::StandardCauchy ==> profile@.k + profile@.m <= 256
            &&& profile@.engine == Engine::Tower
                ==> profile@.symbol_len % 2 == 0 && profile@.k + profile@.m <= 65535 && (profile@.k
                + profile@.m) * profile@.symbol_len <= usize::MAX
            &&& profile@.engine == Engine::Gf8Afft
                ==> profile@.k + profile@.m <= 256 && padded(profile@.k + profile@.m)
                * profile@.symbol_len <= usize::MAX
            &&& profile@.engine == Engine::Gf16Afft
                ==> profile@.symbol_len % 2 == 0 && profile@.k + profile@.m <= 65536
                && padded(profile@.k + profile@.m) * profile@.symbol_len <= usize::MAX
        },
        (profile@.engine == Engine::GoodCauchy || profile@.engine == Engine::StandardCauchy)
            ==> (r is Ok <==> {
            &&& profile@.k >= 1
            &&& profile@.m >= 1
            &&& profile@.symbol_len >= 1
            &&& profile@.engine == Engine::GoodCauchy ==> profile@.k + profile@.m <= 255
            &&& profile@.engine == Engine::StandardCauchy ==> profile@.k + profile@.m <= 256
            &&& profile@.engine == Engine::Tower
                ==> profile@.symbol_len % 2 == 0 && profile@.k + profile@.m <= 65535 && (profile@.k
                + profile@.m) * profile@.symbol_len <= usize::MAX
            &&& profile@.engine == Engine::Gf8Afft
                ==> profile@.k + profile@.m <= 256 && padded(profile@.k + profile@.m)
                * profile@.symbol_len <= usize::MAX
            &&& profile@.engine == Engine::Gf16Afft
                ==> profile@.symbol_len % 2 == 0 && profile@.k + profile@.m <= 65536
                && padded(profile@.k + profile@.m) * profile@.symbol_len <= usize::MAX
        }),
        r == Err::<AnyDecoder, ConfigError>(ConfigError::ZeroDimension)
            <==> (profile@.k == 0 || profile@.m == 0),
        r == Err::<AnyDecoder, ConfigError>(ConfigError::ZeroSymbolLen)
            <==> profile@.k != 0 && profile@.m != 0
            && profile@.symbol_len == 0,
        r matches Err(ConfigError::TooManySymbols { cap }) ==> {
            &&& profile@.engine == Engine::GoodCauchy ==> cap == 255
            &&& profile@.engine == Engine::StandardCauchy ==> cap == 256
            &&& profile@.engine == Engine::Tower ==> cap == 65535
            &&& profile@.engine == Engine::Gf8Afft ==> cap == 256
            &&& profile@.engine == Engine::Gf16Afft ==> cap == 65536
        },
        !(r matches Err(ConfigError::UnsupportedMode { .. })),
        r matches Ok(decoder) ==> {
            &&& decoder.code() == geometry_code(profile@)
            &&& decoder.code().engine == profile@.engine
            &&& decoder.code().k == profile@.k
            &&& decoder.code().m == profile@.m
            &&& decoder.code().symbol_len == profile@.symbol_len
        },
{
    let (k, m, s): (usize, usize, usize) = (profile.k(), profile.m(), profile.symbol_len());
    proof {
        transform_sizes();
        constructible_geometries(profile@);
    }
    match profile.engine() {
        Engine::StandardCauchy => match LazyDecoderState::<CauchyView>::new(k, m, s) {
            Ok(d) => Ok(AnyDecoder::StandardCauchy(d)),
            Err(e) => Err(e),
        },
        Engine::GoodCauchy => match LazyDecoderState::<GoodCauchyView>::new(k, m, s) {
            Ok(d) => Ok(AnyDecoder::GoodCauchy(d)),
            Err(e) => Err(e),
        },
        Engine::Tower => match tower::LazyDecoderState::new(k, m, s) {
            Ok(d) => Ok(AnyDecoder::Tower(d)),
            Err(e) => Err(e),
        },
        Engine::Gf8Afft => match afft::Gf8Decoder::new(k, m, s) {
            Ok(d) => Ok(AnyDecoder::Gf8Afft(d)),
            Err(e) => Err(e),
        },
        Engine::Gf16Afft => match afft::Gf16Decoder::new(k, m, s) {
            Ok(d) => Ok(AnyDecoder::Gf16Afft(d)),
            Err(e) => Err(e),
        },
    }
}

impl Coded for AnyDecoder {
    open spec fn valid(&self) -> bool {
        match self {
            AnyDecoder::StandardCauchy(d) => d.valid() && d.code().engine == Engine::StandardCauchy,
            AnyDecoder::GoodCauchy(d) => d.valid() && d.code().engine == Engine::GoodCauchy,
            AnyDecoder::Tower(d) => d.valid() && d.code().engine == Engine::Tower,
            AnyDecoder::Gf8Afft(d) => d.valid() && d.code().engine == Engine::Gf8Afft,
            AnyDecoder::Gf16Afft(d) => d.valid() && d.code().engine == Engine::Gf16Afft,
        }
    }

    open spec fn code(&self) -> Code {
        match self {
            AnyDecoder::StandardCauchy(d) => d.code(),
            AnyDecoder::GoodCauchy(d) => d.code(),
            AnyDecoder::Tower(d) => d.code(),
            AnyDecoder::Gf8Afft(d) => d.code(),
            AnyDecoder::Gf16Afft(d) => d.code(),
        }
    }

    proof fn code_is_sound(&self) {
        match self {
            AnyDecoder::StandardCauchy(d) => d.code_is_sound(),
            AnyDecoder::GoodCauchy(d) => d.code_is_sound(),
            AnyDecoder::Tower(d) => d.code_is_sound(),
            AnyDecoder::Gf8Afft(d) => d.code_is_sound(),
            AnyDecoder::Gf16Afft(d) => d.code_is_sound(),
        }
    }

    fn k(&self) -> (r: usize) {
        match self {
            AnyDecoder::StandardCauchy(d) => Coded::k(d),
            AnyDecoder::GoodCauchy(d) => Coded::k(d),
            AnyDecoder::Tower(d) => Coded::k(d),
            AnyDecoder::Gf8Afft(d) => Coded::k(d),
            AnyDecoder::Gf16Afft(d) => Coded::k(d),
        }
    }

    fn m(&self) -> (r: usize) {
        match self {
            AnyDecoder::StandardCauchy(d) => Coded::m(d),
            AnyDecoder::GoodCauchy(d) => Coded::m(d),
            AnyDecoder::Tower(d) => Coded::m(d),
            AnyDecoder::Gf8Afft(d) => Coded::m(d),
            AnyDecoder::Gf16Afft(d) => Coded::m(d),
        }
    }

    fn symbol_len(&self) -> (r: usize) {
        match self {
            AnyDecoder::StandardCauchy(d) => Coded::symbol_len(d),
            AnyDecoder::GoodCauchy(d) => Coded::symbol_len(d),
            AnyDecoder::Tower(d) => Coded::symbol_len(d),
            AnyDecoder::Gf8Afft(d) => Coded::symbol_len(d),
            AnyDecoder::Gf16Afft(d) => Coded::symbol_len(d),
        }
    }
}

impl SymbolSink for AnyDecoder {
    open spec fn stored(&self) -> Map<int, Seq<u8>> {
        match self {
            AnyDecoder::StandardCauchy(d) => d.stored(),
            AnyDecoder::GoodCauchy(d) => d.stored(),
            AnyDecoder::Tower(d) => d.stored(),
            AnyDecoder::Gf8Afft(d) => d.stored(),
            AnyDecoder::Gf16Afft(d) => d.stored(),
        }
    }

    open spec fn received_total(&self) -> int {
        match self {
            AnyDecoder::StandardCauchy(d) => d.received_total(),
            AnyDecoder::GoodCauchy(d) => d.received_total(),
            AnyDecoder::Tower(d) => d.received_total(),
            AnyDecoder::Gf8Afft(d) => d.received_total(),
            AnyDecoder::Gf16Afft(d) => d.received_total(),
        }
    }

    proof fn stored_is_bounded(&self) {
        match self {
            AnyDecoder::StandardCauchy(d) => d.stored_is_bounded(),
            AnyDecoder::GoodCauchy(d) => d.stored_is_bounded(),
            AnyDecoder::Tower(d) => d.stored_is_bounded(),
            AnyDecoder::Gf8Afft(d) => d.stored_is_bounded(),
            AnyDecoder::Gf16Afft(d) => d.stored_is_bounded(),
        }
    }

    fn push(&mut self, idx: usize, payload: &[u8]) -> (r: Result<PushOutcome, DecodeError>) {
        match self {
            AnyDecoder::StandardCauchy(d) => d.push(idx, payload),
            AnyDecoder::GoodCauchy(d) => d.push(idx, payload),
            AnyDecoder::Tower(d) => d.push(idx, payload),
            AnyDecoder::Gf8Afft(d) => d.push(idx, payload),
            AnyDecoder::Gf16Afft(d) => d.push(idx, payload),
        }
    }

    fn is_complete(&self) -> (r: bool) {
        match self {
            AnyDecoder::StandardCauchy(d) => d.is_complete(),
            AnyDecoder::GoodCauchy(d) => d.is_complete(),
            AnyDecoder::Tower(d) => d.is_complete(),
            AnyDecoder::Gf8Afft(d) => d.is_complete(),
            AnyDecoder::Gf16Afft(d) => d.is_complete(),
        }
    }

    fn finalize(self) -> (r: Result<Vec<u8>, DecodeError>) {
        match self {
            AnyDecoder::StandardCauchy(d) => d.finalize(),
            AnyDecoder::GoodCauchy(d) => d.finalize(),
            AnyDecoder::Tower(d) => d.finalize(),
            AnyDecoder::Gf8Afft(d) => d.finalize(),
            AnyDecoder::Gf16Afft(d) => d.finalize(),
        }
    }
}

impl Decoder for AnyDecoder {
    type Scratch = AnyDecodeScratch;

    open spec fn scratch_valid(scratch: &AnyDecodeScratch) -> bool {
        match scratch {
            AnyDecodeScratch::Cauchy(c) => <LazyDecoderState<
                CauchyView,
            > as Decoder>::scratch_valid(c),
            AnyDecodeScratch::Tower(c) => <tower::LazyDecoderState as Decoder>::scratch_valid(c),
            AnyDecodeScratch::Gf8Afft(c) => <afft::Gf8Decoder as Decoder>::scratch_valid(c),
            AnyDecodeScratch::Gf16Afft(c) => <afft::Gf16Decoder as Decoder>::scratch_valid(c),
        }
    }

    open spec fn refusal(
        code: Code,
        rank: int,
        output: int,
        scratch: &AnyDecodeScratch,
    ) -> Option<DecodeError> {
        match (code.engine, scratch) {
            (Engine::StandardCauchy, AnyDecodeScratch::Cauchy(c)) => finalize_fault(
                code,
                rank,
                output,
            ),
            (Engine::GoodCauchy, AnyDecodeScratch::Cauchy(c)) => finalize_fault(
                code,
                rank,
                output,
            ),
            (Engine::Tower, AnyDecodeScratch::Tower(c)) =>
                <tower::LazyDecoderState as Decoder>::refusal(code, rank, output, c),
            (Engine::Gf8Afft, AnyDecodeScratch::Gf8Afft(c)) =>
                <afft::Gf8Decoder as Decoder>::refusal(code, rank, output, c),
            (Engine::Gf16Afft, AnyDecodeScratch::Gf16Afft(c)) =>
                <afft::Gf16Decoder as Decoder>::refusal(code, rank, output, c),
            _ => Some(DecodeError::ScratchMismatch),
        }
    }

    proof fn refusal_is_judged(code: Code, rank: int, output: int, scratch: &AnyDecodeScratch) {
        finalization_is_judged(code, rank, output);
    }

    fn scratch(&self) -> (r: AnyDecodeScratch) {
        match self {
            AnyDecoder::StandardCauchy(d) => AnyDecodeScratch::Cauchy(Decoder::scratch(d)),
            AnyDecoder::GoodCauchy(d) => AnyDecodeScratch::Cauchy(Decoder::scratch(d)),
            AnyDecoder::Tower(d) => AnyDecodeScratch::Tower(Decoder::scratch(d)),
            AnyDecoder::Gf8Afft(d) => AnyDecodeScratch::Gf8Afft(Decoder::scratch(d)),
            AnyDecoder::Gf16Afft(d) => AnyDecodeScratch::Gf16Afft(Decoder::scratch(d)),
        }
    }

    fn rank(&self) -> (r: usize) {
        match self {
            AnyDecoder::StandardCauchy(d) => Decoder::rank(d),
            AnyDecoder::GoodCauchy(d) => Decoder::rank(d),
            AnyDecoder::Tower(d) => Decoder::rank(d),
            AnyDecoder::Gf8Afft(d) => Decoder::rank(d),
            AnyDecoder::Gf16Afft(d) => Decoder::rank(d),
        }
    }

    fn received(&self) -> (r: usize) {
        match self {
            AnyDecoder::StandardCauchy(d) => Decoder::received(d),
            AnyDecoder::GoodCauchy(d) => Decoder::received(d),
            AnyDecoder::Tower(d) => Decoder::received(d),
            AnyDecoder::Gf8Afft(d) => Decoder::received(d),
            AnyDecoder::Gf16Afft(d) => Decoder::received(d),
        }
    }

    fn reset(&mut self) {
        match self {
            AnyDecoder::StandardCauchy(d) => Decoder::reset(d),
            AnyDecoder::GoodCauchy(d) => Decoder::reset(d),
            AnyDecoder::Tower(d) => Decoder::reset(d),
            AnyDecoder::Gf8Afft(d) => Decoder::reset(d),
            AnyDecoder::Gf16Afft(d) => Decoder::reset(d),
        }
    }

    fn finalize_into(&mut self, out: &mut [u8]) -> (r: Result<(), DecodeError>) {
        match self {
            AnyDecoder::StandardCauchy(d) => d.finalize_into(out),
            AnyDecoder::GoodCauchy(d) => d.finalize_into(out),
            AnyDecoder::Tower(d) => d.finalize_into(out),
            AnyDecoder::Gf8Afft(d) => d.finalize_into(out),
            AnyDecoder::Gf16Afft(d) => d.finalize_into(out),
        }
    }

    fn finalize_into_with(&mut self, out: &mut [u8], scratch: &mut AnyDecodeScratch) -> (r: Result<
        (),
        DecodeError,
    >)
        ensures
            match (*old(self), *old(scratch)) {
                (AnyDecoder::StandardCauchy(_), AnyDecodeScratch::Cauchy(_)) => true,
                (AnyDecoder::GoodCauchy(_), AnyDecodeScratch::Cauchy(_)) => true,
                (AnyDecoder::Tower(_), AnyDecodeScratch::Tower(_)) => true,
                (AnyDecoder::Gf8Afft(_), AnyDecodeScratch::Gf8Afft(_)) => true,
                (AnyDecoder::Gf16Afft(_), AnyDecodeScratch::Gf16Afft(_)) => true,
                _ => r == Err::<(), DecodeError>(DecodeError::ScratchMismatch),
            },
    {
        proof {
            self.code_is_sound();
            self.stored_is_bounded();
            finalization_is_judged(self.code(), self.stored().len() as int, out.len() as int);
        }
        match self {
            AnyDecoder::StandardCauchy(d) => match scratch {
                AnyDecodeScratch::Cauchy(c) => d.finalize_into_with(out, c),
                _ => Err(DecodeError::ScratchMismatch),
            },
            AnyDecoder::GoodCauchy(d) => match scratch {
                AnyDecodeScratch::Cauchy(c) => d.finalize_into_with(out, c),
                _ => Err(DecodeError::ScratchMismatch),
            },
            AnyDecoder::Tower(d) => match scratch {
                AnyDecodeScratch::Tower(c) => d.finalize_into_with(out, c),
                _ => Err(DecodeError::ScratchMismatch),
            },
            AnyDecoder::Gf8Afft(d) => match scratch {
                AnyDecodeScratch::Gf8Afft(c) => d.finalize_into_with(out, c),
                _ => Err(DecodeError::ScratchMismatch),
            },
            AnyDecoder::Gf16Afft(d) => match scratch {
                AnyDecodeScratch::Gf16Afft(c) => d.finalize_into_with(out, c),
                _ => Err(DecodeError::ScratchMismatch),
            },
        }
    }
}

/// A block-final decoder for any engine.
pub enum AnyBatchDecoder {
    /// GF(256) Standard Cauchy reduced-erasure decoder.
    StandardCauchy(BatchCodec<CauchyView>),
    /// GF(256) Good Cauchy reduced-erasure decoder.
    GoodCauchy(BatchCodec<GoodCauchyView>),
    /// GF(65536) tower decoder.
    Tower(tower::LazyDecoderState),
    /// GF(256) additive-FFT batch decoder.
    Gf8Afft(afft::Gf8BatchDecoder),
    /// GF(65536) additive-FFT batch decoder.
    Gf16Afft(afft::Gf16BatchDecoder),
}

/// Reusable scratch matching an [`AnyBatchDecoder`].
pub enum AnyBatchDecodeScratch {
    /// GF(256) reduced-erasure workspace.
    Cauchy(DecodeScratch),
    /// GF(65536) tower reconstruction workspace.
    Tower(tower::decoder::DecodeScratch),
    /// GF(256) additive-FFT batch workspace.
    Gf8Afft(BatchDecodeScratch<gf256::GfElem>),
    /// GF(65536) additive-FFT batch workspace.
    Gf16Afft(BatchDecodeScratch<gf65536::GfElem>),
}

/// Builds a batch decoder for `profile`.
pub fn batch_decoder(profile: &Profile) -> (r: Result<AnyBatchDecoder, ConfigError>)
    requires
        buildable(profile@),
    ensures
        constructed(
            profile@,
            profile@.engine == Engine::Tower,
            match r {
                Ok(decoder) => Ok(decoder.code()),
                Err(e) => Err(e),
            },
        ),
        profile@.engine == Engine::Tower && requested_storage(profile@) > isize::MAX ==> r is Err,
        construction_fault(profile@) is None && r is Err ==> call_ensures(
            zeroed_bytes,
            (requested_storage(profile@) as usize,),
            None::<Vec<u8>>,
        ),
        r matches Ok(decoder) ==> decoder.valid(),
        r is Ok ==> {
            &&& profile@.k >= 1
            &&& profile@.m >= 1
            &&& profile@.symbol_len >= 1
            &&& profile@.engine == Engine::GoodCauchy ==> profile@.k + profile@.m <= 255
            &&& profile@.engine == Engine::StandardCauchy ==> profile@.k + profile@.m <= 256
            &&& profile@.engine == Engine::Tower
                ==> profile@.symbol_len % 2 == 0 && profile@.k + profile@.m <= 65535 && (profile@.k
                + profile@.m) * profile@.symbol_len <= usize::MAX
            &&& profile@.engine == Engine::Gf8Afft
                ==> profile@.k + profile@.m <= 256 && padded(profile@.k + profile@.m)
                * profile@.symbol_len <= usize::MAX
            &&& profile@.engine == Engine::Gf16Afft
                ==> profile@.symbol_len % 2 == 0 && profile@.k + profile@.m <= 65536
                && padded(profile@.k + profile@.m) * profile@.symbol_len <= usize::MAX
        },
        profile@.engine != Engine::Tower ==> (r is Ok <==> {
            &&& profile@.k >= 1
            &&& profile@.m >= 1
            &&& profile@.symbol_len >= 1
            &&& profile@.engine == Engine::GoodCauchy ==> profile@.k + profile@.m <= 255
            &&& profile@.engine == Engine::StandardCauchy ==> profile@.k + profile@.m <= 256
            &&& profile@.engine == Engine::Tower
                ==> profile@.symbol_len % 2 == 0 && profile@.k + profile@.m <= 65535 && (profile@.k
                + profile@.m) * profile@.symbol_len <= usize::MAX
            &&& profile@.engine == Engine::Gf8Afft
                ==> profile@.k + profile@.m <= 256 && padded(profile@.k + profile@.m)
                * profile@.symbol_len <= usize::MAX
            &&& profile@.engine == Engine::Gf16Afft
                ==> profile@.symbol_len % 2 == 0 && profile@.k + profile@.m <= 65536
                && padded(profile@.k + profile@.m) * profile@.symbol_len <= usize::MAX
        }),
        r == Err::<AnyBatchDecoder, ConfigError>(ConfigError::ZeroDimension)
            <==> (profile@.k == 0 || profile@.m == 0),
        r == Err::<AnyBatchDecoder, ConfigError>(ConfigError::ZeroSymbolLen)
            <==> profile@.k != 0 && profile@.m != 0
            && profile@.symbol_len == 0,
        r matches Err(ConfigError::TooManySymbols { cap }) ==> {
            &&& profile@.engine == Engine::GoodCauchy ==> cap == 255
            &&& profile@.engine == Engine::StandardCauchy ==> cap == 256
            &&& profile@.engine == Engine::Tower ==> cap == 65535
            &&& profile@.engine == Engine::Gf8Afft ==> cap == 256
            &&& profile@.engine == Engine::Gf16Afft ==> cap == 65536
        },
        !(r matches Err(ConfigError::UnsupportedMode { .. })),
        r matches Ok(decoder) ==> {
            &&& decoder.code() == geometry_code(profile@)
            &&& decoder.code().engine == profile@.engine
            &&& decoder.code().k == profile@.k
            &&& decoder.code().m == profile@.m
            &&& decoder.code().symbol_len == profile@.symbol_len
        },
{
    let (k, m, s): (usize, usize, usize) = (profile.k(), profile.m(), profile.symbol_len());
    proof {
        transform_sizes();
        constructible_geometries(profile@);
    }
    match profile.engine() {
        Engine::StandardCauchy => match BatchCodec::<CauchyView>::new(k, m, s) {
            Ok(d) => Ok(AnyBatchDecoder::StandardCauchy(d)),
            Err(e) => Err(e),
        },
        Engine::GoodCauchy => match BatchCodec::<GoodCauchyView>::new(k, m, s) {
            Ok(d) => Ok(AnyBatchDecoder::GoodCauchy(d)),
            Err(e) => Err(e),
        },
        Engine::Tower => match tower::LazyDecoderState::new(k, m, s) {
            Ok(d) => Ok(AnyBatchDecoder::Tower(d)),
            Err(e) => Err(e),
        },
        Engine::Gf8Afft => match afft::Gf8BatchDecoder::new(k, m, s) {
            Ok(d) => Ok(AnyBatchDecoder::Gf8Afft(d)),
            Err(e) => Err(e),
        },
        Engine::Gf16Afft => match afft::Gf16BatchDecoder::new(k, m, s) {
            Ok(d) => Ok(AnyBatchDecoder::Gf16Afft(d)),
            Err(e) => Err(e),
        },
    }
}

impl Coded for AnyBatchDecoder {
    open spec fn valid(&self) -> bool {
        match self {
            AnyBatchDecoder::StandardCauchy(d) => d.valid() && d.code().engine == Engine::StandardCauchy,
            AnyBatchDecoder::GoodCauchy(d) => d.valid() && d.code().engine == Engine::GoodCauchy,
            AnyBatchDecoder::Tower(d) => d.valid() && d.code().engine == Engine::Tower,
            AnyBatchDecoder::Gf8Afft(d) => d.valid() && d.code().engine == Engine::Gf8Afft,
            AnyBatchDecoder::Gf16Afft(d) => d.valid() && d.code().engine == Engine::Gf16Afft,
        }
    }

    open spec fn code(&self) -> Code {
        match self {
            AnyBatchDecoder::StandardCauchy(d) => d.code(),
            AnyBatchDecoder::GoodCauchy(d) => d.code(),
            AnyBatchDecoder::Tower(d) => d.code(),
            AnyBatchDecoder::Gf8Afft(d) => d.code(),
            AnyBatchDecoder::Gf16Afft(d) => d.code(),
        }
    }

    proof fn code_is_sound(&self) {
        match self {
            AnyBatchDecoder::StandardCauchy(d) => d.code_is_sound(),
            AnyBatchDecoder::GoodCauchy(d) => d.code_is_sound(),
            AnyBatchDecoder::Tower(d) => d.code_is_sound(),
            AnyBatchDecoder::Gf8Afft(d) => d.code_is_sound(),
            AnyBatchDecoder::Gf16Afft(d) => d.code_is_sound(),
        }
    }

    fn k(&self) -> (r: usize) {
        match self {
            AnyBatchDecoder::StandardCauchy(d) => Coded::k(d),
            AnyBatchDecoder::GoodCauchy(d) => Coded::k(d),
            AnyBatchDecoder::Tower(d) => Coded::k(d),
            AnyBatchDecoder::Gf8Afft(d) => Coded::k(d),
            AnyBatchDecoder::Gf16Afft(d) => Coded::k(d),
        }
    }

    fn m(&self) -> (r: usize) {
        match self {
            AnyBatchDecoder::StandardCauchy(d) => Coded::m(d),
            AnyBatchDecoder::GoodCauchy(d) => Coded::m(d),
            AnyBatchDecoder::Tower(d) => Coded::m(d),
            AnyBatchDecoder::Gf8Afft(d) => Coded::m(d),
            AnyBatchDecoder::Gf16Afft(d) => Coded::m(d),
        }
    }

    fn symbol_len(&self) -> (r: usize) {
        match self {
            AnyBatchDecoder::StandardCauchy(d) => Coded::symbol_len(d),
            AnyBatchDecoder::GoodCauchy(d) => Coded::symbol_len(d),
            AnyBatchDecoder::Tower(d) => Coded::symbol_len(d),
            AnyBatchDecoder::Gf8Afft(d) => Coded::symbol_len(d),
            AnyBatchDecoder::Gf16Afft(d) => Coded::symbol_len(d),
        }
    }
}

impl BatchDecoder for AnyBatchDecoder {
    type Scratch = AnyBatchDecodeScratch;

    open spec fn batch_scratch_valid(scratch: &AnyBatchDecodeScratch) -> bool {
        match scratch {
            AnyBatchDecodeScratch::Cauchy(s) => <BatchCodec<
                CauchyView,
            > as BatchDecoder>::batch_scratch_valid(s),
            AnyBatchDecodeScratch::Tower(s) =>
                <tower::LazyDecoderState as BatchDecoder>::batch_scratch_valid(s),
            AnyBatchDecodeScratch::Gf8Afft(s) =>
                <afft::Gf8BatchDecoder as BatchDecoder>::batch_scratch_valid(s),
            AnyBatchDecodeScratch::Gf16Afft(s) =>
                <afft::Gf16BatchDecoder as BatchDecoder>::batch_scratch_valid(s),
        }
    }

    open spec fn decode_refusal(
        &self,
        symbols: Seq<(usize, &[u8])>,
        output: int,
        scratch: &AnyBatchDecodeScratch,
    ) -> Option<DecodeError> {
        match (self, scratch) {
            (AnyBatchDecoder::StandardCauchy(d), AnyBatchDecodeScratch::Cauchy(s)) => d.decode_refusal(
                symbols,
                output,
                s,
            ),
            (AnyBatchDecoder::GoodCauchy(d), AnyBatchDecodeScratch::Cauchy(s)) => d.decode_refusal(
                symbols,
                output,
                s,
            ),
            (AnyBatchDecoder::Tower(d), AnyBatchDecodeScratch::Tower(s)) => d.decode_refusal(
                symbols,
                output,
                s,
            ),
            (AnyBatchDecoder::Gf8Afft(d), AnyBatchDecodeScratch::Gf8Afft(s)) => d.decode_refusal(
                symbols,
                output,
                s,
            ),
            (AnyBatchDecoder::Gf16Afft(d), AnyBatchDecodeScratch::Gf16Afft(s)) => d.decode_refusal(
                symbols,
                output,
                s,
            ),
            _ => Some(DecodeError::ScratchMismatch),
        }
    }

    open spec fn decode_fault(&self, symbols: Seq<(usize, &[u8])>, output: int) -> Option<
        DecodeError,
    > {
        match self {
            AnyBatchDecoder::StandardCauchy(d) => d.decode_fault(symbols, output),
            AnyBatchDecoder::GoodCauchy(d) => d.decode_fault(symbols, output),
            AnyBatchDecoder::Tower(d) => d.decode_fault(symbols, output),
            AnyBatchDecoder::Gf8Afft(d) => d.decode_fault(symbols, output),
            AnyBatchDecoder::Gf16Afft(d) => d.decode_fault(symbols, output),
        }
    }

    proof fn codeword_fits(&self) {
        match self {
            AnyBatchDecoder::StandardCauchy(d) => BatchDecoder::codeword_fits(d),
            AnyBatchDecoder::GoodCauchy(d) => BatchDecoder::codeword_fits(d),
            AnyBatchDecoder::Tower(d) => BatchDecoder::codeword_fits(d),
            AnyBatchDecoder::Gf8Afft(d) => BatchDecoder::codeword_fits(d),
            AnyBatchDecoder::Gf16Afft(d) => BatchDecoder::codeword_fits(d),
        }
    }

    proof fn receipt_is_judged(&self, symbols: Seq<(usize, &[u8])>, output: int) {
        match self {
            AnyBatchDecoder::StandardCauchy(d) =>
                BatchDecoder::receipt_is_judged(d, symbols, output),
            AnyBatchDecoder::GoodCauchy(d) => BatchDecoder::receipt_is_judged(d, symbols, output),
            AnyBatchDecoder::Tower(d) => BatchDecoder::receipt_is_judged(d, symbols, output),
            AnyBatchDecoder::Gf8Afft(d) => BatchDecoder::receipt_is_judged(d, symbols, output),
            AnyBatchDecoder::Gf16Afft(d) => BatchDecoder::receipt_is_judged(d, symbols, output),
        }
    }

    proof fn scratch_is_judged(
        &self,
        symbols: Seq<(usize, &[u8])>,
        output: int,
        scratch: &AnyBatchDecodeScratch,
    ) {
        match (self, scratch) {
            (AnyBatchDecoder::StandardCauchy(d), AnyBatchDecodeScratch::Cauchy(s)) =>
                BatchDecoder::scratch_is_judged(d, symbols, output, s),
            (AnyBatchDecoder::GoodCauchy(d), AnyBatchDecodeScratch::Cauchy(s)) =>
                BatchDecoder::scratch_is_judged(d, symbols, output, s),
            (AnyBatchDecoder::Tower(d), AnyBatchDecodeScratch::Tower(s)) =>
                BatchDecoder::scratch_is_judged(d, symbols, output, s),
            (AnyBatchDecoder::Gf8Afft(d), AnyBatchDecodeScratch::Gf8Afft(s)) =>
                BatchDecoder::scratch_is_judged(d, symbols, output, s),
            (AnyBatchDecoder::Gf16Afft(d), AnyBatchDecodeScratch::Gf16Afft(s)) =>
                BatchDecoder::scratch_is_judged(d, symbols, output, s),
            _ => {
            },
        }
    }

    fn scratch(&self) -> (r: AnyBatchDecodeScratch) {
        match self {
            AnyBatchDecoder::StandardCauchy(d) => AnyBatchDecodeScratch::Cauchy(BatchDecoder::scratch(d)),
            AnyBatchDecoder::GoodCauchy(d) => AnyBatchDecodeScratch::Cauchy(BatchDecoder::scratch(d)),
            AnyBatchDecoder::Tower(d) => AnyBatchDecodeScratch::Tower(BatchDecoder::scratch(d)),
            AnyBatchDecoder::Gf8Afft(d) => AnyBatchDecodeScratch::Gf8Afft(BatchDecoder::scratch(d)),
            AnyBatchDecoder::Gf16Afft(d) => AnyBatchDecodeScratch::Gf16Afft(BatchDecoder::scratch(d)),
        }
    }

    fn decode_into(&mut self, symbols: &[(usize, &[u8])], out: &mut [u8]) -> (r: Result<
        (),
        DecodeError,
    >) {
        proof {
            assert(symbols.len() == symbols@.len());
            BatchDecoder::receipt_is_judged(self, symbols@, out.len() as int);
        }
        let mut scratch = BatchDecoder::scratch(self);
        self.decode_into_with(symbols, out, &mut scratch)
    }

    fn decode_into_with(
        &mut self,
        symbols: &[(usize, &[u8])],
        out: &mut [u8],
        scratch: &mut AnyBatchDecodeScratch,
    ) -> (r: Result<(), DecodeError>)
        ensures
            match (*old(self), *old(scratch)) {
                (AnyBatchDecoder::StandardCauchy(_), AnyBatchDecodeScratch::Cauchy(_)) => true,
                (AnyBatchDecoder::GoodCauchy(_), AnyBatchDecodeScratch::Cauchy(_)) => true,
                (AnyBatchDecoder::Tower(_), AnyBatchDecodeScratch::Tower(_)) => true,
                (AnyBatchDecoder::Gf8Afft(_), AnyBatchDecodeScratch::Gf8Afft(_)) => true,
                (AnyBatchDecoder::Gf16Afft(_), AnyBatchDecodeScratch::Gf16Afft(_)) => true,
                _ => r == Err::<(), DecodeError>(DecodeError::ScratchMismatch),
            },
    {
        proof {
            assert(symbols.len() == symbols@.len());
            BatchDecoder::receipt_is_judged(self, symbols@, out.len() as int);
            BatchDecoder::scratch_is_judged(self, symbols@, out.len() as int, scratch);
        }
        match self {
            AnyBatchDecoder::StandardCauchy(d) => match scratch {
                AnyBatchDecodeScratch::Cauchy(s) => BatchDecoder::decode_into_with(d, symbols, out, s),
                _ => Err(DecodeError::ScratchMismatch),
            },
            AnyBatchDecoder::GoodCauchy(d) => match scratch {
                AnyBatchDecodeScratch::Cauchy(s) => BatchDecoder::decode_into_with(d, symbols, out, s),
                _ => Err(DecodeError::ScratchMismatch),
            },
            AnyBatchDecoder::Tower(d) => match scratch {
                AnyBatchDecodeScratch::Tower(s) => BatchDecoder::decode_into_with(d, symbols, out, s),
                _ => Err(DecodeError::ScratchMismatch),
            },
            AnyBatchDecoder::Gf8Afft(d) => match scratch {
                AnyBatchDecodeScratch::Gf8Afft(s) => BatchDecoder::decode_into_with(d, symbols, out, s),
                _ => Err(DecodeError::ScratchMismatch),
            },
            AnyBatchDecoder::Gf16Afft(d) => match scratch {
                AnyBatchDecodeScratch::Gf16Afft(s) => BatchDecoder::decode_into_with(d, symbols, out, s),
                _ => Err(DecodeError::ScratchMismatch),
            },
        }
    }
}

/// An incremental (streaming) encoder for any engine that supports the mode.
pub enum AnyIncrementalEncoder {
    /// GF(256) Good Cauchy.
    GoodCauchy(StreamingEncoder),
    /// GF(65536) tower.
    Tower(tower::StreamingEncoder),
}

/// Builds an incremental encoder for `profile`.
///
/// Errors with [`ConfigError::UnsupportedMode`] when the engine is block-final
/// (Standard Cauchy, additive FFT).
pub fn incremental_encoder(profile: &Profile) -> (r: Result<AnyIncrementalEncoder, ConfigError>)
    requires
        feedable(profile@),
    ensures
        profile@.engine != Engine::GoodCauchy && profile@.engine != Engine::Tower ==> r == Err::<
            AnyIncrementalEncoder,
            ConfigError,
        >(ConfigError::UnsupportedMode { engine: profile@.engine }),
        profile@.engine == Engine::GoodCauchy || profile@.engine == Engine::Tower ==> constructed(
            profile@,
            false,
            match r {
                Ok(encoder) => Ok(encoder.code()),
                Err(e) => Err(e),
            },
        ),
        r matches Ok(encoder) ==> {
            &&& encoder.valid()
            &&& encoder.fed_block() == zero_block(profile@.k * profile@.symbol_len)
            &&& forall|i: int| 0 <= i < profile@.k ==> !(#[trigger] encoder.is_fed(i))
        },
        r is Ok ==> {
            &&& profile@.k >= 1
            &&& profile@.m >= 1
            &&& profile@.symbol_len >= 1
            &&& profile@.engine == Engine::GoodCauchy ==> profile@.k + profile@.m <= 255
            &&& profile@.engine == Engine::StandardCauchy ==> profile@.k + profile@.m <= 256
            &&& profile@.engine == Engine::Tower
                ==> profile@.symbol_len % 2 == 0 && profile@.k + profile@.m <= 65535 && (profile@.k
                + profile@.m) * profile@.symbol_len <= usize::MAX
            &&& profile@.engine == Engine::Gf8Afft
                ==> profile@.k + profile@.m <= 256 && padded(profile@.k + profile@.m)
                * profile@.symbol_len <= usize::MAX
            &&& profile@.engine == Engine::Gf16Afft
                ==> profile@.symbol_len % 2 == 0 && profile@.k + profile@.m <= 65536
                && padded(profile@.k + profile@.m) * profile@.symbol_len <= usize::MAX
        },
        (profile@.engine == Engine::GoodCauchy || profile@.engine == Engine::Tower) ==> (r is Ok
            <==> {
            &&& profile@.k >= 1
            &&& profile@.m >= 1
            &&& profile@.symbol_len >= 1
            &&& profile@.engine == Engine::GoodCauchy ==> profile@.k + profile@.m <= 255
            &&& profile@.engine == Engine::StandardCauchy ==> profile@.k + profile@.m <= 256
            &&& profile@.engine == Engine::Tower
                ==> profile@.symbol_len % 2 == 0 && profile@.k + profile@.m <= 65535 && (profile@.k
                + profile@.m) * profile@.symbol_len <= usize::MAX
            &&& profile@.engine == Engine::Gf8Afft
                ==> profile@.k + profile@.m <= 256 && padded(profile@.k + profile@.m)
                * profile@.symbol_len <= usize::MAX
            &&& profile@.engine == Engine::Gf16Afft
                ==> profile@.symbol_len % 2 == 0 && profile@.k + profile@.m <= 65536
                && padded(profile@.k + profile@.m) * profile@.symbol_len <= usize::MAX
        }),
        r == Err::<AnyIncrementalEncoder, ConfigError>(ConfigError::ZeroDimension)
            <==> (profile@.engine == Engine::GoodCauchy || profile@.engine == Engine::Tower)
            && (profile@.k == 0 || profile@.m == 0),
        r == Err::<AnyIncrementalEncoder, ConfigError>(ConfigError::ZeroSymbolLen)
            <==> (profile@.engine == Engine::GoodCauchy || profile@.engine == Engine::Tower)
            && profile@.k != 0 && profile@.m != 0
            && profile@.symbol_len == 0,
        r matches Err(ConfigError::TooManySymbols { cap }) ==> {
            &&& profile@.engine == Engine::GoodCauchy ==> cap == 255
            &&& profile@.engine == Engine::StandardCauchy ==> cap == 256
            &&& profile@.engine == Engine::Tower ==> cap == 65535
            &&& profile@.engine == Engine::Gf8Afft ==> cap == 256
            &&& profile@.engine == Engine::Gf16Afft ==> cap == 65536
        },
        r matches Err(ConfigError::UnsupportedMode { .. })
            <==> !((profile@.engine == Engine::GoodCauchy || profile@.engine == Engine::Tower)),
        r matches Ok(encoder) ==> {
            &&& encoder.code() == geometry_code(profile@)
            &&& encoder.code().engine == profile@.engine
            &&& encoder.code().k == profile@.k
            &&& encoder.code().m == profile@.m
            &&& encoder.code().symbol_len == profile@.symbol_len
        },
{
    let (k, m, s): (usize, usize, usize) = (profile.k(), profile.m(), profile.symbol_len());
    proof {
        constructible_geometries(profile@);
    }
    match profile.engine() {
        Engine::GoodCauchy => match StreamingEncoder::new(k, m, s) {
            Ok(e) => Ok(AnyIncrementalEncoder::GoodCauchy(e)),
            Err(e) => Err(e),
        },
        Engine::Tower => match tower::StreamingEncoder::new(k, m, s) {
            Ok(e) => Ok(AnyIncrementalEncoder::Tower(e)),
            Err(e) => Err(e),
        },
        engine => Err(ConfigError::UnsupportedMode { engine }),
    }
}

impl Coded for AnyIncrementalEncoder {
    open spec fn valid(&self) -> bool {
        match self {
            AnyIncrementalEncoder::GoodCauchy(e) => e.valid() && e.code().engine == Engine::GoodCauchy,
            AnyIncrementalEncoder::Tower(e) => e.valid() && e.code().engine == Engine::Tower,
        }
    }

    open spec fn code(&self) -> Code {
        match self {
            AnyIncrementalEncoder::GoodCauchy(e) => e.code(),
            AnyIncrementalEncoder::Tower(e) => e.code(),
        }
    }

    proof fn code_is_sound(&self) {
        match self {
            AnyIncrementalEncoder::GoodCauchy(e) => e.code_is_sound(),
            AnyIncrementalEncoder::Tower(e) => e.code_is_sound(),
        }
    }

    fn k(&self) -> (r: usize) {
        match self {
            AnyIncrementalEncoder::GoodCauchy(e) => Coded::k(e),
            AnyIncrementalEncoder::Tower(e) => Coded::k(e),
        }
    }

    fn m(&self) -> (r: usize) {
        match self {
            AnyIncrementalEncoder::GoodCauchy(e) => Coded::m(e),
            AnyIncrementalEncoder::Tower(e) => Coded::m(e),
        }
    }

    fn symbol_len(&self) -> (r: usize) {
        match self {
            AnyIncrementalEncoder::GoodCauchy(e) => Coded::symbol_len(e),
            AnyIncrementalEncoder::Tower(e) => Coded::symbol_len(e),
        }
    }
}

impl IncrementalEncoder for AnyIncrementalEncoder {
    open spec fn fed_block(&self) -> Seq<u8> {
        match self {
            AnyIncrementalEncoder::GoodCauchy(e) => e.fed_block(),
            AnyIncrementalEncoder::Tower(e) => e.fed_block(),
        }
    }

    open spec fn is_fed(&self, index: int) -> bool {
        match self {
            AnyIncrementalEncoder::GoodCauchy(e) => e.is_fed(index),
            AnyIncrementalEncoder::Tower(e) => e.is_fed(index),
        }
    }

    fn feed(&mut self, index: usize, data: &[u8]) -> (r: Result<(), EncodeError>) {
        match self {
            AnyIncrementalEncoder::GoodCauchy(e) => IncrementalEncoder::feed(e, index, data),
            AnyIncrementalEncoder::Tower(e) => IncrementalEncoder::feed(e, index, data),
        }
    }

    fn repair(&self, index: usize) -> (r: Result<&[u8], EncodeError>) {
        match self {
            AnyIncrementalEncoder::GoodCauchy(e) => IncrementalEncoder::repair(e, index),
            AnyIncrementalEncoder::Tower(e) => IncrementalEncoder::repair(e, index),
        }
    }

    fn fed_count(&self) -> (r: usize) {
        proof {
            match self {
                AnyIncrementalEncoder::GoodCauchy(e) => {
                    assert((|i: int| self.is_fed(i)) =~= (|i: int| e.is_fed(i)));
                },
                AnyIncrementalEncoder::Tower(e) => {
                    assert((|i: int| self.is_fed(i)) =~= (|i: int| e.is_fed(i)));
                },
            }
        }
        match self {
            AnyIncrementalEncoder::GoodCauchy(e) => IncrementalEncoder::fed_count(e),
            AnyIncrementalEncoder::Tower(e) => IncrementalEncoder::fed_count(e),
        }
    }

    fn reset(&mut self) {
        match self {
            AnyIncrementalEncoder::GoodCauchy(e) => IncrementalEncoder::reset(e),
            AnyIncrementalEncoder::Tower(e) => IncrementalEncoder::reset(e),
        }
    }
}

/// A block-final encoder for any engine that supports the mode.
pub enum AnyBatchEncoder {
    /// GF(256) Standard Cauchy.
    StandardCauchy(BatchCodec<CauchyView>),
    /// GF(256) Good Cauchy.
    GoodCauchy(BatchCodec<GoodCauchyView>),
    /// GF(256) additive FFT.
    Gf8Afft(afft::Gf8Encoder),
    /// GF(65536) additive FFT.
    Gf16Afft(afft::Gf16Encoder),
}

/// Reusable encode scratch for [`AnyBatchEncoder`].
pub enum AnyEncodeScratch {
    /// GF(256) batch needs no workspace.
    Unit,
    /// GF(256) additive-FFT transform workspace.
    Gf8Afft(afft::EncodeScratch),
    /// GF(65536) additive-FFT transform workspace.
    Gf16Afft(afft::EncodeScratch),
}

/// Builds a batch encoder for `profile`.
///
/// Errors with [`ConfigError::UnsupportedMode`] when the engine is
/// incremental-only (tower).
pub fn batch_encoder(profile: &Profile) -> (r: Result<AnyBatchEncoder, ConfigError>)
    requires
        buildable(profile@),
    ensures
        profile@.engine == Engine::Tower ==> r == Err::<AnyBatchEncoder, ConfigError>(
            ConfigError::UnsupportedMode { engine: Engine::Tower },
        ),
        profile@.engine != Engine::Tower ==> constructed(
            profile@,
            false,
            match r {
                Ok(encoder) => Ok(encoder.code()),
                Err(e) => Err(e),
            },
        ),
        r matches Ok(encoder) ==> encoder.valid(),
        r is Ok ==> {
            &&& profile@.k >= 1
            &&& profile@.m >= 1
            &&& profile@.symbol_len >= 1
            &&& profile@.engine == Engine::GoodCauchy ==> profile@.k + profile@.m <= 255
            &&& profile@.engine == Engine::StandardCauchy ==> profile@.k + profile@.m <= 256
            &&& profile@.engine == Engine::Tower
                ==> profile@.symbol_len % 2 == 0 && profile@.k + profile@.m <= 65535 && (profile@.k
                + profile@.m) * profile@.symbol_len <= usize::MAX
            &&& profile@.engine == Engine::Gf8Afft
                ==> profile@.k + profile@.m <= 256 && padded(profile@.k + profile@.m)
                * profile@.symbol_len <= usize::MAX
            &&& profile@.engine == Engine::Gf16Afft
                ==> profile@.symbol_len % 2 == 0 && profile@.k + profile@.m <= 65536
                && padded(profile@.k + profile@.m) * profile@.symbol_len <= usize::MAX
        },
        profile@.engine != Engine::Tower ==> (r is Ok <==> {
            &&& profile@.k >= 1
            &&& profile@.m >= 1
            &&& profile@.symbol_len >= 1
            &&& profile@.engine == Engine::GoodCauchy ==> profile@.k + profile@.m <= 255
            &&& profile@.engine == Engine::StandardCauchy ==> profile@.k + profile@.m <= 256
            &&& profile@.engine == Engine::Tower
                ==> profile@.symbol_len % 2 == 0 && profile@.k + profile@.m <= 65535 && (profile@.k
                + profile@.m) * profile@.symbol_len <= usize::MAX
            &&& profile@.engine == Engine::Gf8Afft
                ==> profile@.k + profile@.m <= 256 && padded(profile@.k + profile@.m)
                * profile@.symbol_len <= usize::MAX
            &&& profile@.engine == Engine::Gf16Afft
                ==> profile@.symbol_len % 2 == 0 && profile@.k + profile@.m <= 65536
                && padded(profile@.k + profile@.m) * profile@.symbol_len <= usize::MAX
        }),
        r == Err::<AnyBatchEncoder, ConfigError>(ConfigError::ZeroDimension)
            <==> profile@.engine != Engine::Tower && (profile@.k == 0 || profile@.m == 0),
        r == Err::<AnyBatchEncoder, ConfigError>(ConfigError::ZeroSymbolLen)
            <==> profile@.engine != Engine::Tower && profile@.k != 0 && profile@.m != 0
            && profile@.symbol_len == 0,
        r matches Err(ConfigError::TooManySymbols { cap }) ==> {
            &&& profile@.engine == Engine::GoodCauchy ==> cap == 255
            &&& profile@.engine == Engine::StandardCauchy ==> cap == 256
            &&& profile@.engine == Engine::Tower ==> cap == 65535
            &&& profile@.engine == Engine::Gf8Afft ==> cap == 256
            &&& profile@.engine == Engine::Gf16Afft ==> cap == 65536
        },
        r matches Err(ConfigError::UnsupportedMode { .. }) <==> !(profile@.engine != Engine::Tower),
        r matches Ok(encoder) ==> {
            &&& encoder.code() == geometry_code(profile@)
            &&& encoder.code().engine == profile@.engine
            &&& encoder.code().k == profile@.k
            &&& encoder.code().m == profile@.m
            &&& encoder.code().symbol_len == profile@.symbol_len
        },
{
    let (k, m, s): (usize, usize, usize) = (profile.k(), profile.m(), profile.symbol_len());
    proof {
        transform_sizes();
        constructible_geometries(profile@);
    }
    match profile.engine() {
        Engine::StandardCauchy => match BatchCodec::<CauchyView>::new(k, m, s) {
            Ok(e) => Ok(AnyBatchEncoder::StandardCauchy(e)),
            Err(e) => Err(e),
        },
        Engine::GoodCauchy => match BatchCodec::<GoodCauchyView>::new(k, m, s) {
            Ok(e) => Ok(AnyBatchEncoder::GoodCauchy(e)),
            Err(e) => Err(e),
        },
        Engine::Gf8Afft => match afft::Gf8Encoder::new(k, m, s) {
            Ok(e) => Ok(AnyBatchEncoder::Gf8Afft(e)),
            Err(e) => Err(e),
        },
        Engine::Gf16Afft => match afft::Gf16Encoder::new(k, m, s) {
            Ok(e) => Ok(AnyBatchEncoder::Gf16Afft(e)),
            Err(e) => Err(e),
        },
        engine => Err(ConfigError::UnsupportedMode { engine }),
    }
}

impl Coded for AnyBatchEncoder {
    open spec fn valid(&self) -> bool {
        match self {
            AnyBatchEncoder::StandardCauchy(e) => e.valid() && e.code().engine == Engine::StandardCauchy,
            AnyBatchEncoder::GoodCauchy(e) => e.valid() && e.code().engine == Engine::GoodCauchy,
            AnyBatchEncoder::Gf8Afft(e) => e.valid() && e.code().engine == Engine::Gf8Afft,
            AnyBatchEncoder::Gf16Afft(e) => e.valid() && e.code().engine == Engine::Gf16Afft,
        }
    }

    open spec fn code(&self) -> Code {
        match self {
            AnyBatchEncoder::StandardCauchy(e) => e.code(),
            AnyBatchEncoder::GoodCauchy(e) => e.code(),
            AnyBatchEncoder::Gf8Afft(e) => e.code(),
            AnyBatchEncoder::Gf16Afft(e) => e.code(),
        }
    }

    proof fn code_is_sound(&self) {
        match self {
            AnyBatchEncoder::StandardCauchy(e) => e.code_is_sound(),
            AnyBatchEncoder::GoodCauchy(e) => e.code_is_sound(),
            AnyBatchEncoder::Gf8Afft(e) => e.code_is_sound(),
            AnyBatchEncoder::Gf16Afft(e) => e.code_is_sound(),
        }
    }

    fn k(&self) -> (r: usize) {
        match self {
            AnyBatchEncoder::StandardCauchy(e) => Coded::k(e),
            AnyBatchEncoder::GoodCauchy(e) => Coded::k(e),
            AnyBatchEncoder::Gf8Afft(e) => Coded::k(e),
            AnyBatchEncoder::Gf16Afft(e) => Coded::k(e),
        }
    }

    fn m(&self) -> (r: usize) {
        match self {
            AnyBatchEncoder::StandardCauchy(e) => Coded::m(e),
            AnyBatchEncoder::GoodCauchy(e) => Coded::m(e),
            AnyBatchEncoder::Gf8Afft(e) => Coded::m(e),
            AnyBatchEncoder::Gf16Afft(e) => Coded::m(e),
        }
    }

    fn symbol_len(&self) -> (r: usize) {
        match self {
            AnyBatchEncoder::StandardCauchy(e) => Coded::symbol_len(e),
            AnyBatchEncoder::GoodCauchy(e) => Coded::symbol_len(e),
            AnyBatchEncoder::Gf8Afft(e) => Coded::symbol_len(e),
            AnyBatchEncoder::Gf16Afft(e) => Coded::symbol_len(e),
        }
    }
}

impl BatchEncoder for AnyBatchEncoder {
    type Scratch = AnyEncodeScratch;

    open spec fn scratch_valid(scratch: &AnyEncodeScratch) -> bool {
        match scratch {
            AnyEncodeScratch::Unit => true,
            AnyEncodeScratch::Gf8Afft(s) => <afft::Gf8Encoder as BatchEncoder>::scratch_valid(s),
            AnyEncodeScratch::Gf16Afft(s) => <afft::Gf16Encoder as BatchEncoder>::scratch_valid(s),
        }
    }

    open spec fn encode_refusal(
        &self,
        input: int,
        output: int,
        scratch: &AnyEncodeScratch,
    ) -> Option<EncodeError> {
        match (self, scratch) {
            (AnyBatchEncoder::StandardCauchy(e), AnyEncodeScratch::Unit) => encode_fault(
                e.code(),
                input,
                output,
            ),
            (AnyBatchEncoder::GoodCauchy(e), AnyEncodeScratch::Unit) => encode_fault(
                e.code(),
                input,
                output,
            ),
            (AnyBatchEncoder::Gf8Afft(e), AnyEncodeScratch::Gf8Afft(s)) => e.encode_refusal(
                input,
                output,
                s,
            ),
            (AnyBatchEncoder::Gf16Afft(e), AnyEncodeScratch::Gf16Afft(s)) => e.encode_refusal(
                input,
                output,
                s,
            ),
            _ => Some(EncodeError::ScratchMismatch),
        }
    }

    proof fn codeword_fits(&self) {
        match self {
            AnyBatchEncoder::StandardCauchy(e) => BatchEncoder::codeword_fits(e),
            AnyBatchEncoder::GoodCauchy(e) => BatchEncoder::codeword_fits(e),
            AnyBatchEncoder::Gf8Afft(e) => BatchEncoder::codeword_fits(e),
            AnyBatchEncoder::Gf16Afft(e) => BatchEncoder::codeword_fits(e),
        }
    }

    proof fn encode_is_judged(&self, input: int, output: int, scratch: &AnyEncodeScratch) {
        BatchEncoder::codeword_fits(self);
        self.code_is_sound();
        encode_lengths_are_judged(self.code(), input, output);
    }

    fn scratch(&self) -> (r: AnyEncodeScratch) {
        match self {
            AnyBatchEncoder::StandardCauchy(_) => AnyEncodeScratch::Unit,
            AnyBatchEncoder::GoodCauchy(_) => AnyEncodeScratch::Unit,
            AnyBatchEncoder::Gf8Afft(e) => AnyEncodeScratch::Gf8Afft(BatchEncoder::scratch(e)),
            AnyBatchEncoder::Gf16Afft(e) => AnyEncodeScratch::Gf16Afft(BatchEncoder::scratch(e)),
        }
    }

    fn encode_into(&self, data: &[u8], repairs: &mut [u8]) -> (r: Result<(), EncodeError>) {
        match self {
            AnyBatchEncoder::StandardCauchy(e) => BatchEncoder::encode_into(e, data, repairs),
            AnyBatchEncoder::GoodCauchy(e) => BatchEncoder::encode_into(e, data, repairs),
            AnyBatchEncoder::Gf8Afft(e) => BatchEncoder::encode_into(e, data, repairs),
            AnyBatchEncoder::Gf16Afft(e) => BatchEncoder::encode_into(e, data, repairs),
        }
    }

    fn encode_into_with(
        &self,
        data: &[u8],
        repairs: &mut [u8],
        scratch: &mut AnyEncodeScratch,
    ) -> (r: Result<(), EncodeError>)
        ensures
            match (*self, *old(scratch)) {
                (AnyBatchEncoder::StandardCauchy(_), AnyEncodeScratch::Unit) => true,
                (AnyBatchEncoder::GoodCauchy(_), AnyEncodeScratch::Unit) => true,
                (AnyBatchEncoder::Gf8Afft(_), AnyEncodeScratch::Gf8Afft(_)) => true,
                (AnyBatchEncoder::Gf16Afft(_), AnyEncodeScratch::Gf16Afft(_)) => true,
                _ => r == Err::<(), EncodeError>(EncodeError::ScratchMismatch),
            },
    {
        proof {
            BatchEncoder::codeword_fits(self);
            self.code_is_sound();
            encode_lengths_are_judged(self.code(), data.len() as int, repairs.len() as int);
        }
        match self {
            AnyBatchEncoder::StandardCauchy(e) => match scratch {
                AnyEncodeScratch::Unit => BatchEncoder::encode_into_with(e, data, repairs, &mut ()),
                _ => Err(EncodeError::ScratchMismatch),
            },
            AnyBatchEncoder::GoodCauchy(e) => match scratch {
                AnyEncodeScratch::Unit => BatchEncoder::encode_into_with(e, data, repairs, &mut ()),
                _ => Err(EncodeError::ScratchMismatch),
            },
            AnyBatchEncoder::Gf8Afft(e) => match scratch {
                AnyEncodeScratch::Gf8Afft(s) => BatchEncoder::encode_into_with(e, data, repairs, s),
                _ => Err(EncodeError::ScratchMismatch),
            },
            AnyBatchEncoder::Gf16Afft(e) => match scratch {
                AnyEncodeScratch::Gf16Afft(s) => BatchEncoder::encode_into_with(e, data, repairs, s),
                _ => Err(EncodeError::ScratchMismatch),
            },
        }
    }
}

} // verus!
