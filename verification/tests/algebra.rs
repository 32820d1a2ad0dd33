use algokit::math::algebra::{AddOp, Identity, Inverse, Magma, One, Zero};

#[test]
fn zero_and_one_of_the_integers() {
    assert_eq!(<u8 as Zero>::zero(), 0);
    assert_eq!(<u16 as Zero>::zero(), 0);
    assert_eq!(<u32 as Zero>::zero(), 0);
    assert_eq!(<u64 as Zero>::zero(), 0);
    assert_eq!(<u128 as Zero>::zero(), 0);
    assert_eq!(<usize as Zero>::zero(), 0);
    assert_eq!(<i8 as Zero>::zero(), 0);
    assert_eq!(<i16 as Zero>::zero(), 0);
    assert_eq!(<i32 as Zero>::zero(), 0);
    assert_eq!(<i64 as Zero>::zero(), 0);
    assert_eq!(<i128 as Zero>::zero(), 0);
    assert_eq!(<isize as Zero>::zero(), 0);
    assert_eq!(<u8 as One>::one(), 1);
    assert_eq!(<u16 as One>::one(), 1);
    assert_eq!(<u32 as One>::one(), 1);
    assert_eq!(<u64 as One>::one(), 1);
    assert_eq!(<u128 as One>::one(), 1);
    assert_eq!(<usize as One>::one(), 1);
    assert_eq!(<i8 as One>::one(), 1);
    assert_eq!(<i16 as One>::one(), 1);
    assert_eq!(<i32 as One>::one(), 1);
    assert_eq!(<i64 as One>::one(), 1);
    assert_eq!(<i128 as One>::one(), 1);
    assert_eq!(<isize as One>::one(), 1);
}

#[test]
fn add_op_adds() {
    assert_eq!(AddOp::<i64>::op(2, 3), 5);
    assert_eq!(AddOp::<i64>::op(-7, 3), -4);
    assert_eq!(AddOp::<u32>::op(40, 2), 42);
    assert_eq!(AddOp::<usize>::op(0, 9), 9);
    assert_eq!(AddOp::<i128>::op(1 << 100, 1 << 100), 1 << 101);
    assert_eq!(AddOp::<u128>::op(u128::MAX - 1, 1), u128::MAX);
}

#[test]
fn add_op_identity_is_zero() {
    assert_eq!(AddOp::<i8>::id(), 0);
    assert_eq!(AddOp::<i64>::id(), 0);
    assert_eq!(AddOp::<u64>::id(), 0);
    assert_eq!(AddOp::<isize>::id(), 0);
    for a in [-5i64, 0, 9, i64::MAX, i64::MIN] {
        assert_eq!(AddOp::<i64>::op(a, AddOp::<i64>::id()), a);
        assert_eq!(AddOp::<i64>::op(AddOp::<i64>::id(), a), a);
    }
}

#[test]
fn add_op_inverse_negates() {
    assert_eq!(AddOp::<i64>::inv(8), -8);
    assert_eq!(AddOp::<i64>::inv(-8), 8);
    assert_eq!(AddOp::<i32>::inv(0), 0);
    assert_eq!(AddOp::<i16>::inv(i16::MAX), -i16::MAX);
    assert_eq!(AddOp::<i128>::inv(1 << 90), -(1 << 90));
    assert_eq!(AddOp::<isize>::inv(-3), 3);
}

#[test]
fn add_op_wraps_at_the_ends() {
    assert_eq!(AddOp::<i8>::op(127, 1), -128);
    assert_eq!(AddOp::<i8>::op(-128, -1), 127);
    assert_eq!(AddOp::<u8>::op(255, 1), 0);
    assert_eq!(AddOp::<u16>::op(u16::MAX, 2), 1);
    assert_eq!(AddOp::<i64>::op(i64::MAX, 1), i64::MIN);
    assert_eq!(AddOp::<usize>::op(usize::MAX, 1), 0);
    // the least value is its own inverse
    assert_eq!(AddOp::<i8>::inv(-128), -128);
    assert_eq!(AddOp::<i64>::inv(i64::MIN), i64::MIN);
    assert_eq!(AddOp::<i8>::op(-128, AddOp::<i8>::inv(-128)), 0);
}

#[test]
fn group_laws_hold_for_bytes() {
    for a in i8::MIN..=i8::MAX {
        assert_eq!(AddOp::<i8>::op(a, AddOp::<i8>::inv(a)), 0);
        assert_eq!(AddOp::<i8>::op(AddOp::<i8>::inv(a), a), 0);
        for b in [-128i8, -77, -1, 0, 1, 50, 127] {
            assert_eq!(AddOp::<i8>::op(a, b), AddOp::<i8>::op(b, a));
            for c in [-128i8, -3, 0, 64, 127] {
                assert_eq!(
                    AddOp::<i8>::op(AddOp::<i8>::op(a, b), c),
                    AddOp::<i8>::op(a, AddOp::<i8>::op(b, c))
                );
            }
        }
    }
}
