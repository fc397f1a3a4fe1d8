use std::path::PathBuf;

use atlas_packer::images::{Config, ImageDefinition};

#[test]
fn definition_keeps_its_path() {
    let def = ImageDefinition::new(PathBuf::from("sprites/hero.png"));
    assert_eq!(def.path(), &PathBuf::from("sprites/hero.png"));
}

#[test]
fn config_carries_plain_fields() {
    let config = Config {
        width: 128,
        height: 64,
        input: vec![ImageDefinition::new(PathBuf::from("a.png"))],
        base_dir: PathBuf::from("assets"),
        output_image: PathBuf::from("atlas.png"),
        output_map: PathBuf::from("atlas.json"),
        border: 1,
    };
    assert_eq!(config.width, 128);
    assert_eq!(config.height, 64);
    assert_eq!(config.input.len(), 1);
    assert_eq!(config.border, 1);
}
