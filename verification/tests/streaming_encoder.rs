use srs::batch::BatchCodec;
use srs::encoder::StreamingEncoder;
use srs::good_cauchy::GoodCauchyView;

#[test]
fn coefficient_matrix_matches_view_get() {
    let k = 16;
    let m = 8;
    let view = GoodCauchyView::new(k, m).unwrap();
    let matrix = view.coefficient_matrix();
    for i in 0..k {
        for j in 0..m {
            assert_eq!(matrix[i * m + j], view.get(i, j));
        }
    }
}

#[test]
fn streaming_matches_batch_repairs() {
    let k = 8;
    let m = 4;
    let slen = 64;
    let data: Vec<u8> = (0..k * slen).map(|i| i as u8).collect();

    let batch = BatchCodec::<GoodCauchyView>::new(k, m, slen).unwrap();
    let symbols = batch.encode(&data).unwrap();

    let mut enc = StreamingEncoder::new(k, m, slen).unwrap();
    for i in 0..k {
        enc.feed_data_symbol(i, &data[i * slen..(i + 1) * slen])
            .unwrap();
    }
    for j in 0..m {
        assert_eq!(enc.repair_symbol(j).unwrap(), symbols[k + j].as_slice());
    }
}
