use press::material::Material;

#[test]
fn straw_and_theory_have_a_model() {
    assert!(Material::Straw.is_modelled());
    assert!(Material::Theory.is_modelled());
    assert!(!Material::Wood.is_modelled());
    assert!(!Material::Clay.is_modelled());
}

#[test]
fn materials_compare_by_variant() {
    assert_eq!(Material::Straw, Material::Straw.clone());
    assert_ne!(Material::Wood, Material::Clay);
}
