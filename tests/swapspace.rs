use ocean_fft::{Swap, Swappable};

#[test]
fn test_swap() {
    let mut swap = Swap::from_ab(10, 20);

    swap.swap();

    assert_eq!(swap.into_ab(), (20, 10));

    let x = 10;
    let y = 10;

    let mut swap = Swap::from_ab(&x, &y);

    swap.swap();

    assert_eq!(swap.into_ab(), (&y, &x));
}

#[test]
fn swap_binding_exchanges_roles() {
    let swap = Swap::from_ab(vec![1, 2], vec![3]).swap_binding();
    assert_eq!(swap.a, vec![3]);
    assert_eq!(swap.b, vec![1, 2]);
}

#[test]
fn from_ab_keeps_roles() {
    let swap = Swap::from_ab('a', 'b');
    assert_eq!(swap.a, 'a');
    assert_eq!(swap.b, 'b');
    assert_eq!(swap.into_ab(), ('a', 'b'));
}

#[test]
fn swap_twice_restores_roles() {
    let mut swap = Swap::from_ab(1u8, 2u8);
    swap.swap();
    swap.swap();
    assert_eq!(swap.into_ab(), (1, 2));
}

#[test]
fn swap_prints_both_roles() {
    let swap = Swap::from_ab(1, 2);
    assert_eq!(format!("{:?}", swap), "Swap { a: 1, b: 2 }");
}
