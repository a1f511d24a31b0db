#[test]
fn does_not_crash() {
    quickcheck::quickcheck(multidiff::does_not_crash as fn(_) -> _);
}

#[test]
fn equals_return_same() {
    quickcheck::quickcheck(multidiff::equals_return_same as fn(_) -> _);
}

#[test]
fn can_reconstruct_original() {
    quickcheck::quickcheck(multidiff::can_reconstruct_original as fn(_) -> _);
}

#[test]
fn reconstruction_on_fixed_bytes() {
    let a = vec![1u8, 2, 3, 4];
    let b = vec![2u8, 4, 5];
    let c = vec![9u8];
    multidiff::can_reconstruct_original((a, b, c));
}

#[test]
fn idempotence_on_fixed_bytes() {
    multidiff::equals_return_same(vec![7u8, 7, 8, 9, 7]);
}
