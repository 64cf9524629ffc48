use musickbeets::names::{
    colormap_index, find_channel_effect_index, find_master_effect_index, is_master_effect,
    window_type_index, ColormapId,
};

#[test]
fn colormap_names_and_indices() {
    assert_eq!(ColormapId::Classic.name(), "Classic");
    assert_eq!(ColormapId::InvertedGrey.name(), "Inverted Grey");
    assert_eq!(ColormapId::Custom.name(), "Custom");
    assert_eq!(ColormapId::from_index(2), ColormapId::Magma);
    assert_eq!(ColormapId::from_index(7), ColormapId::Custom);
    assert_eq!(ColormapId::from_index(8), ColormapId::Classic);
    for i in 0..7 {
        assert_eq!(colormap_index(ColormapId::from_index(i).name()), i);
    }
    assert_eq!(colormap_index("Custom"), 0);
    assert_eq!(colormap_index("viridis"), 0);
}

#[test]
fn window_type_indices() {
    assert_eq!(window_type_index("Hann"), 0);
    assert_eq!(window_type_index("Hamming"), 1);
    assert_eq!(window_type_index("Blackman"), 2);
    assert_eq!(window_type_index("Kaiser"), 3);
    assert_eq!(window_type_index("kaiser"), 0);
}

#[test]
fn master_effects_any_case() {
    assert!(is_master_effect("rv"));
    assert!(is_master_effect("Reverb"));
    assert!(is_master_effect("REVERB2"));
    assert!(is_master_effect("dl"));
    assert!(is_master_effect("Delay"));
    assert!(is_master_effect("cl"));
    assert!(is_master_effect("clear"));
    assert!(!is_master_effect("amplitude"));
    assert!(!is_master_effect("rv3"));
    assert!(!is_master_effect(""));
    assert!(!is_master_effect("revérb"));
}

#[test]
fn test_find_effect_by_name() {
    assert!(find_channel_effect_index("amplitude").is_some());
    assert!(find_channel_effect_index("a").is_some());
    assert!(find_master_effect_index("reverb").is_some());
    assert!(find_master_effect_index("rv").is_some());
}

#[test]
fn effect_positions() {
    assert_eq!(find_channel_effect_index("AMPLITUDE"), Some(0));
    assert_eq!(find_channel_effect_index("Ch"), Some(6));
    assert_eq!(find_channel_effect_index("distortion"), Some(5));
    assert_eq!(find_channel_effect_index("reverb"), None);
    assert_eq!(find_channel_effect_index(""), None);
    assert_eq!(find_master_effect_index("RV2"), Some(1));
    assert_eq!(find_master_effect_index("Delay"), Some(2));
    assert_eq!(find_master_effect_index("clear"), None);
    assert_eq!(find_master_effect_index("a"), None);
}
