use mozzarella::params::{LpnParameters, Party, RingParameter};

#[test]
fn recompute_rounds_up_to_a_multiple() {
    let mut p = LpnParameters { base_vole_size: 400, extension_size: 8190, num_noise_coordinates: 8 };
    assert!(!p.validate());
    p.recompute_extension_size();
    assert_eq!(p.extension_size, 8192);
    assert_eq!(p.get_block_size(), 1024);
    assert!(p.validate());
}

#[test]
fn recompute_keeps_a_multiple() {
    let mut p = LpnParameters { base_vole_size: 10, extension_size: 64, num_noise_coordinates: 4 };
    p.recompute_extension_size();
    assert_eq!(p.extension_size, 64);
    assert_eq!(p.num_noise_coordinates, 4);
    assert_eq!(p.base_vole_size, 10);
}

#[test]
fn block_size_is_ceiling() {
    let p = LpnParameters { base_vole_size: 1, extension_size: 10, num_noise_coordinates: 3 };
    assert_eq!(p.get_block_size(), 4);
    let p = LpnParameters { base_vole_size: 1, extension_size: 9, num_noise_coordinates: 3 };
    assert_eq!(p.get_block_size(), 3);
}

#[test]
fn cache_and_output_sizes() {
    let p = LpnParameters { base_vole_size: 589_760, extension_size: 10_805_248, num_noise_coordinates: 1_319 };
    assert_eq!(p.get_required_cache_size(), 589_760 + 2 * 1_319);
    assert_eq!(p.get_vole_output_size(), 10_805_248 - 589_760 - 2 * 1_319);
}

#[test]
fn validate_rejects_zeros() {
    assert!(!LpnParameters { base_vole_size: 0, extension_size: 8, num_noise_coordinates: 2 }.validate());
    assert!(!LpnParameters { base_vole_size: 1, extension_size: 0, num_noise_coordinates: 2 }.validate());
    assert!(!LpnParameters { base_vole_size: 1, extension_size: 8, num_noise_coordinates: 0 }.validate());
    assert!(LpnParameters { base_vole_size: 1, extension_size: 8, num_noise_coordinates: 2 }.validate());
}

#[test]
fn names() {
    assert_eq!(Party::Prover.name(), "Prover");
    assert_eq!(Party::Verifier.name(), "Verifier");
    assert_eq!(Party::Both.name(), "Both");
    assert_eq!(RingParameter::R64.name(), "R64");
    assert_eq!(RingParameter::R78.name(), "R72");
    assert_eq!(RingParameter::R231.name(), "R231");
}
