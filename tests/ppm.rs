use chameleon::ppm::PpmSmall;

#[test]
fn ppm_small_bytes() {
    let px = [(255, 0, 0), (0, 255, 0), (0, 0, 255), (255, 255, 255)];
    let ppm = PpmSmall::build(&px, 2, 2);
    assert_eq!(ppm.dimensions, (2, 2));
    let header = vec![0x50, 0x36, 0x0a, 0x32, 0x20, 0x32, 0x0a, 0x32, 0x35, 0x35, 0x0a];
    assert_eq!(ppm.header, header);
    let mut expect = header.clone();
    expect.extend_from_slice(&[255, 0, 0, 0, 255, 0, 0, 0, 255, 255, 255, 255, 0x0a]);
    assert_eq!(ppm.to_bytes(), expect);
}
