#[test]
fn conversao_f32_para_f64_e_volta_e_identidade() {
    // Camera(f32) ↔ CameraSnapshot(f64): f32 ⊂ f64 (IEEE 754), so f32→f64→f32 is the identity.
    for v in [0.4_f32, 1.0, 2.0, 0.000_1, 1.999_999_9, f32::MIN_POSITIVE] {
        assert_eq!(v as f64 as f32, v, "f32→f64→f32 identidade p/ {v}");
    }
}
