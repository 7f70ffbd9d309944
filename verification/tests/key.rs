use mini_lsm::key::{key_order, KeyBytes, KeyOrder, KeySlice, KeyVec};

#[test]
fn key_order_compares_first_differing_byte() {
    assert_eq!(key_order(b"abc", b"abd"), KeyOrder::Before);
    assert_eq!(key_order(b"abd", b"abc"), KeyOrder::After);
    assert_eq!(key_order(b"b", b"abc"), KeyOrder::After);
    assert_eq!(key_order(b"abc", b"abc"), KeyOrder::Same);
}

#[test]
fn key_order_puts_prefix_first() {
    assert_eq!(key_order(b"ab", b"abc"), KeyOrder::Before);
    assert_eq!(key_order(b"abc", b"ab"), KeyOrder::After);
    assert_eq!(key_order(b"", b"a"), KeyOrder::Before);
    assert_eq!(key_order(b"a", b""), KeyOrder::After);
    assert_eq!(key_order(b"", b""), KeyOrder::Same);
}

#[test]
fn key_order_treats_bytes_as_unsigned() {
    assert_eq!(key_order(&[0x7f], &[0x80]), KeyOrder::Before);
    assert_eq!(key_order(&[0xff], &[0x00, 0xff]), KeyOrder::After);
}

#[test]
fn key_order_agrees_with_slice_order() {
    let keys: [&[u8]; 6] = [b"", b"a", b"aa", b"ab", b"b", b"ba"];
    for x in keys {
        for y in keys {
            let expected = if x < y {
                KeyOrder::Before
            } else if x == y {
                KeyOrder::Same
            } else {
                KeyOrder::After
            };
            assert_eq!(key_order(x, y), expected);
        }
    }
}

#[test]
fn key_forms_hold_the_same_bytes() {
    let slice = KeySlice::from_slice(b"key_1");
    assert_eq!(slice.len(), 5);
    assert!(!slice.is_empty());
    let owned: KeyVec = slice.to_key_vec();
    assert_eq!(owned.raw_ref(), b"key_1");
    assert_eq!(owned.as_key_slice().raw_ref(), b"key_1");
    let shared: KeyBytes = owned.into_key_bytes();
    assert_eq!(shared.raw_ref(), b"key_1");
    assert_eq!(shared.len(), 5);
    let again = shared.clone();
    assert_eq!(again.as_key_slice().into_inner(), b"key_1");
}

#[test]
fn key_forms_order_alike() {
    let a = KeyVec::from_vec(b"apple".to_vec());
    let b = KeyBytes::copy_from_slice(b"banana");
    assert_eq!(a.as_key_slice().order(b.as_key_slice()), KeyOrder::Before);
    assert_eq!(b.as_key_slice().order(a.as_key_slice()), KeyOrder::After);
    assert_eq!(
        a.as_key_slice().order(KeySlice::from_slice(b"apple")),
        KeyOrder::Same
    );
}

#[test]
fn empty_key_vec_is_empty() {
    let k = KeyVec::new();
    assert!(k.is_empty());
    assert_eq!(k.len(), 0);
    assert_eq!(k.into_inner(), Vec::<u8>::new());
}

#[test]
fn key_comparison_operators_follow_byte_order() {
    let keys: [&[u8]; 6] = [b"", b"a", b"aa", b"ab", b"b", b"ba"];
    for x in keys {
        for y in keys {
            let order = key_order(x, y);
            let (kx, ky) = (KeySlice::from_slice(x), KeySlice::from_slice(y));
            assert_eq!(kx < ky, order == KeyOrder::Before);
            assert_eq!(kx == ky, order == KeyOrder::Same);
            assert_eq!(kx > ky, order == KeyOrder::After);
            let (vx, vy) = (kx.to_key_vec(), ky.to_key_vec());
            assert_eq!(vx < vy, order == KeyOrder::Before);
            let (bx, by) = (KeyBytes::copy_from_slice(x), KeyBytes::copy_from_slice(y));
            assert_eq!(bx < by, order == KeyOrder::Before);
            assert_eq!(bx == by, order == KeyOrder::Same);
        }
    }
}

#[test]
fn key_slice_is_copied_freely() {
    let key = KeySlice::from_slice(b"abc");
    let copy = key;
    assert_eq!(key.raw_ref(), copy.raw_ref());
    let owned = KeyVec::from_vec(b"abc".to_vec());
    assert_eq!(owned.clone(), owned);
}
