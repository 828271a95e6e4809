use ug::lang::Error;
use ug::launch::{
    cat_params, causal_mask_params, dims4, flash_attention_params, rope_params, softmax_params,
};

#[test]
fn dims4_needs_rank_four() {
    assert!(matches!(dims4(&vec![1, 2, 3]), Err(Error::RankMismatch { lhs: 3, rhs: 4 })));
    assert_eq!(dims4(&vec![1, 2, 3, 4]).unwrap(), (1, 2, 3, 4));
}

#[test]
fn rope_parameters() {
    let p = rope_params(&vec![2, 4, 8, 16]).unwrap();
    assert_eq!(p.num_elems, 2 * 4 * 8 * 16 / 2);
    assert_eq!(p.bh, 8);
    assert_eq!(p.td, 128);
    assert_eq!(p.d, 16);
    assert_eq!(p.dims, (2, 4, 8, 16));
    assert!(rope_params(&vec![2, 4]).is_err());
}

#[test]
fn cat_parameters() {
    let p = cat_params(&vec![2, 3, 4], &vec![2, 5, 4], 1).unwrap();
    assert_eq!(p.dst_dims, vec![2, 8, 4]);
    assert_eq!(p.d1, 2);
    assert_eq!(p.d2_l, 12);
    assert_eq!(p.d2_r, 20);
    assert_eq!(p.d2_lr, 32);
    assert!(matches!(
        cat_params(&vec![2, 3], &vec![2, 3], 2),
        Err(Error::DimOutOfRange { dim: 2, rank: 2 })
    ));
    assert!(matches!(cat_params(&vec![2, 3], &vec![2, 3, 1], 0), Err(Error::ShapeMismatch)));
    assert!(matches!(cat_params(&vec![2, 3], &vec![3, 3], 1), Err(Error::ShapeMismatch)));
}

#[test]
fn softmax_and_mask_parameters() {
    assert_eq!(softmax_params(&vec![3, 4, 5]), (60, 5, 12));
    assert_eq!(causal_mask_params(&vec![2, 3, 4, 4]).unwrap(), (96, 4, 4, 6));
    assert!(causal_mask_params(&vec![4, 4]).is_err());
}

#[test]
fn flash_attention_parameters() {
    assert_eq!(flash_attention_params(&vec![2, 8, 16, 64], &vec![2, 8, 32, 64]).unwrap(), (16, 16, 64, 32));
    assert!(matches!(
        flash_attention_params(&vec![2, 8, 16, 64], &vec![2, 8, 32]),
        Err(Error::RankMismatch { lhs: 3, rhs: 4 })
    ));
}
