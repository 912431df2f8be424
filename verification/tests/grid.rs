use diffusion_solver::grid::{fill_zero, zeros};

#[test]
fn zeros_has_the_length_asked_for() {
    assert_eq!(zeros(0), Vec::<u32>::new());
    assert_eq!(zeros(5), vec![0u32; 5]);
}

#[test]
fn fill_zero_overwrites_every_element() {
    let mut v = vec![3u32, 0, 0x3F80_0000, u32::MAX];
    fill_zero(&mut v);
    assert_eq!(v, vec![0u32; 4]);
    let mut empty: Vec<u32> = Vec::new();
    fill_zero(&mut empty);
    assert!(empty.is_empty());
}
