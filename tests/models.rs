use fortress_models::baker::{apply_directives, bake_all, BakedFile, LoadError, RawDefinition};
use fortress_models::catalog::{build_storage, into_material_name, MatchKind, ModelStorage, RegistryContainers};
use fortress_models::identifier::Identifier;
use fortress_models::mesh::{corner_index, parse_corner, parse_u16, split_char, triangulate, MeshLoadingError};
use fortress_models::model::{quad_corners, quad_uvs, Cullable, Direction, MeshElement, PreBakedModel, Texturing};
use fortress_models::storage::{MaterialIdentifier, MaterialIdentifierStorage};
use fortress_models::textures::{intern, load_models, solve_variable};

fn s(x: &str) -> String {
    x.to_string()
}

fn params(pairs: &[(&str, &str)]) -> MeshElement {
    MeshElement::Params(pairs.iter().map(|(k, v)| (s(k), s(v))).collect())
}

fn face(binding: &str) -> MeshElement {
    MeshElement::Face {
        n: Direction::Up,
        shape: 0,
        t: Texturing { src: s(binding), clip: None },
        cullable: Cullable::Never,
    }
}

fn table(pairs: &[(&str, &str)]) -> Vec<(String, String, bool)> {
    pairs.iter().map(|(k, v)| (s(k), s(v), true)).collect()
}

fn binding<'a>(vars: &'a [(String, String, bool)], name: &str) -> Option<&'a str> {
    vars.iter().find(|v| v.0 == name).map(|v| v.1.as_str())
}

#[test]
fn indirection_chain_resolves_to_literal() {
    let vars = table(&[("A", "#B"), ("B", "#C"), ("C", "textures/x.png")]);
    let mut textures = Vec::new();
    let r = solve_variable(&vars, &mut textures, 0);
    assert!(matches!(r, Ok(0)));
    assert_eq!(textures, vec![s("textures/x.png")]);
}

#[test]
fn indirection_cycle_is_an_error() {
    let vars = table(&[("A", "#B"), ("B", "#A")]);
    let mut textures = Vec::new();
    match solve_variable(&vars, &mut textures, 0) {
        Err(LoadError::CyclicIndirection(chain)) => assert_eq!(chain, vec![s("A"), s("B"), s("A")]),
        _ => panic!("expected a cyclic indirection error"),
    }
    assert!(textures.is_empty());
}

#[test]
fn indirection_to_unknown_name_is_unresolved() {
    let vars = table(&[("A", "#Z")]);
    let mut textures = Vec::new();
    match solve_variable(&vars, &mut textures, 0) {
        Err(LoadError::UnresolvedVariable(name)) => assert_eq!(name, "Z"),
        _ => panic!("expected an unresolved variable error"),
    }
}

#[test]
fn interning_deduplicates_in_insertion_order() {
    let mut textures = Vec::new();
    assert_eq!(intern(&mut textures, &s("a.png")), 0);
    assert_eq!(intern(&mut textures, &s("b.png")), 1);
    assert_eq!(intern(&mut textures, &s("a.png")), 0);
    assert_eq!(textures, vec![s("a.png"), s("b.png")]);
}

fn parent_and_child(params_first: bool) -> Vec<RawDefinition> {
    let parent = RawDefinition { path: s("parent.ron"), elements: vec![params(&[("tex", "b.png")])] };
    let own = params(&[("tex", "a.png")]);
    let inherit = MeshElement::Inherit(s("parent.ron"));
    let elements = if params_first { vec![own, inherit, face("tex")] } else { vec![inherit, own, face("tex")] };
    vec![parent, RawDefinition { path: s("child.ron"), elements }]
}

#[test]
fn own_params_win_over_inherited_in_either_order() {
    for params_first in [true, false] {
        let defs = parent_and_child(params_first);
        let cache = match bake_all(&defs) {
            Ok(c) => c,
            Err(_) => panic!("baking failed"),
        };
        let child: &BakedFile = cache.iter().find(|f| f.path == "child.ron").unwrap();
        assert_eq!(binding(&child.variables, "tex"), Some("a.png"));
        assert_eq!(child.variables.len(), 1);
    }
}

#[test]
fn first_own_binding_wins() {
    let ds = vec![params(&[("t", "one.png")]), params(&[("t", "two.png"), ("u", "u.png")])];
    let (vars, models, transparent) = match apply_directives(&ds, &Vec::new()) {
        Ok(r) => r,
        Err(_) => panic!("expected success"),
    };
    assert_eq!(binding(&vars, "t"), Some("one.png"));
    assert_eq!(binding(&vars, "u"), Some("u.png"));
    assert!(models.is_empty());
    assert!(!transparent);
}

#[test]
fn face_defaults_and_binding_position() {
    let ds = vec![
        params(&[("x", "x.png"), ("y", "y.png")]),
        MeshElement::Transparent(true),
        face("y"),
        MeshElement::Mesh { shape: 3, t: Texturing { src: s("x"), clip: Some((1, 2, 3, 4)) } },
    ];
    let (_, models, transparent) = match apply_directives(&ds, &Vec::new()) {
        Ok(r) => r,
        Err(_) => panic!("expected success"),
    };
    assert!(transparent);
    assert_eq!(
        models,
        vec![
            PreBakedModel::Face { n: Direction::Up, shape: 0, t: (1, None), cullable: Cullable::Never },
            PreBakedModel::Mesh { shape: 3, t: (0, Some((1, 2, 3, 4))), cullable: Cullable::Never },
        ]
    );
}

#[test]
fn unknown_binding_is_unresolved() {
    let ds = vec![params(&[("x", "x.png")]), face("nope")];
    match apply_directives(&ds, &Vec::new()) {
        Err(LoadError::UnresolvedVariable(name)) => assert_eq!(name, "nope"),
        _ => panic!("expected an unresolved variable error"),
    }
}

#[test]
fn missing_parent_is_reported() {
    let defs = vec![RawDefinition { path: s("a.ron"), elements: vec![MeshElement::Inherit(s("gone.ron"))] }];
    match bake_all(&defs) {
        Err(LoadError::MissingInheritedFile(p)) => assert_eq!(p, "gone.ron"),
        _ => panic!("expected a missing file error"),
    }
}

#[test]
fn inheritance_cycle_is_reported() {
    let defs = vec![
        RawDefinition { path: s("a.ron"), elements: vec![MeshElement::Inherit(s("b.ron"))] },
        RawDefinition { path: s("b.ron"), elements: vec![MeshElement::Inherit(s("a.ron"))] },
    ];
    assert!(matches!(bake_all(&defs), Err(LoadError::InheritanceCycle(_))));
}

#[test]
fn inherited_primitive_is_repointed_by_name() {
    let parent = RawDefinition {
        path: s("p.ron"),
        elements: vec![params(&[("q", "q.png"), ("main", "m.png")]), face("main")],
    };
    let child = RawDefinition {
        path: s("c.ron"),
        elements: vec![params(&[("main", "own.png")]), MeshElement::Inherit(s("p.ron"))],
    };
    let cache = match bake_all(&vec![parent, child]) {
        Ok(c) => c,
        Err(_) => panic!("baking failed"),
    };
    let c = cache.iter().find(|f| f.path == "c.ron").unwrap();
    assert_eq!(c.variables[0].0, "main");
    assert_eq!(c.variables[1].0, "q");
    assert_eq!(c.models, vec![PreBakedModel::Face { n: Direction::Up, shape: 0, t: (0, None), cullable: Cullable::Never }]);
}

#[test]
fn end_to_end_inherited_model_shares_atlas_slot() {
    let defs = vec![
        RawDefinition {
            path: s("assets/materials/wall/mod.ron"),
            elements: vec![params(&[("main", "stone.png")]), face("main")],
        },
        RawDefinition {
            path: s("assets/materials/wall/granite.ron"),
            elements: vec![MeshElement::Inherit(s("assets/materials/wall/mod.ron"))],
        },
    ];
    let (folders, textures) = match load_models(&defs, &vec![vec![0, 1]]) {
        Ok(r) => r,
        Err(_) => panic!("loading failed"),
    };
    assert_eq!(textures, vec![s("stone.png")]);
    let mut entries = Vec::new();
    for (rm, comps) in folders[0].iter().zip([vec![s("mod.ron")], vec![s("granite.ron")]]) {
        entries.push((into_material_name(&comps), rm.models.clone()));
    }
    let mut storage: ModelStorage<Vec<PreBakedModel>> = build_storage(entries);
    let granite = storage.get_model(&Identifier::from_string("granite")).unwrap().unwrap().clone();
    let own = storage.get_model(&Identifier::from_segments(Vec::new())).unwrap().unwrap().clone();
    assert_eq!(granite.len(), 1);
    assert_eq!(granite[0].texture_index(), own[0].texture_index());
    assert_eq!(granite[0].texture_index(), 0);
    let (m, kind) = storage.resolve(&Identifier::from_string("granite"));
    assert_eq!(kind, MatchKind::Exact);
    assert_eq!(m.unwrap().len(), 1);
}

#[test]
fn material_names_from_paths() {
    let id = into_material_name(&vec![s("stone"), s("mod.ron")]);
    assert!(id == Identifier::from_string("STONE"));
    let id = into_material_name(&vec![s("stone"), s("granite.ron")]);
    assert!(id == Identifier::from_string("stone:granite"));
    let id = into_material_name(&vec![s("mod.ron")]);
    assert!(id.is_empty());
    let id = into_material_name(&vec![s("notes.txt")]);
    assert_eq!(id.last(), Some("NOTES.TXT"));
}

fn wood_catalog() -> ModelStorage<&'static str> {
    let mut storage = ModelStorage::new();
    storage.add_model("default", Identifier::from_segments(Vec::new()));
    storage.add_model("wood", Identifier::from_string("wood"));
    storage
}

#[test]
fn ignorable_trailing_segment_falls_back_without_warning() {
    let mut storage = wood_catalog();
    let (m, kind) = storage.resolve(&Identifier::from_string("WOOD:STRUCTURAL"));
    assert_eq!(m, Some(&"wood"));
    assert_eq!(kind, MatchKind::Fallback);
}

#[test]
fn unmatched_trailing_segment_falls_back_as_missing() {
    let mut storage = wood_catalog();
    let (m, kind) = storage.resolve(&Identifier::from_string("WOOD:BARK"));
    assert_eq!(m, Some(&"wood"));
    assert_eq!(kind, MatchKind::Missing);
    let (m, kind) = storage.resolve(&Identifier::from_string("WOOD:BARK"));
    assert_eq!(m, Some(&"wood"));
    assert_eq!(kind, MatchKind::Exact);
    let (m, kind) = storage.resolve(&Identifier::from_string("STONE"));
    assert_eq!(m, Some(&"default"));
    assert_eq!(kind, MatchKind::Missing);
}

#[test]
fn add_model_numbers_from_one_and_zero_is_no_model() {
    let mut storage: ModelStorage<&str> = ModelStorage::new();
    assert!(matches!(storage.get_model_id(&Identifier::from_string("a")), Ok(0)));
    assert!(matches!(storage.get_model(&Identifier::from_string("a")), Ok(None)));
    assert_eq!(storage.add_model("first", Identifier::from_string("a")), 1);
    assert_eq!(storage.add_model("second", Identifier::from_string("a:b")), 2);
    assert!(matches!(storage.get_model_id(&Identifier::from_string("a:b:c")), Ok(2)));
    assert!(matches!(storage.get_model_id_and_cache(&Identifier::from_string("a:x")), Err(Some(1))));
    assert!(matches!(storage.get_model_id_and_cache(&Identifier::from_string("a:x")), Ok(Some(1))));
    assert_eq!(storage.len(), 2);
}

#[test]
fn trie_storage_lookup_rules() {
    let mut st = MaterialIdentifierStorage::new();
    let wood = MaterialIdentifier::from_string("wood");
    let bark = MaterialIdentifier::from_string("wood:bark");
    assert_eq!(st.get_id(&wood), Err(0));
    assert_eq!(st.get_id(&MaterialIdentifier::from_string("structural")), Ok(0));
    st.set_id(&wood, 3);
    assert_eq!(st.get_id(&wood), Ok(3));
    assert_eq!(st.get_id(&bark), Err(3));
    assert_eq!(st.get_id(&MaterialIdentifier::from_string("wood:structural")), Ok(3));
    st.set_id(&bark, 4);
    assert_eq!(st.get_id(&bark), Ok(4));
    assert_eq!(st.get_id(&wood), Ok(3));
    assert_eq!(st.get_id(&MaterialIdentifier::from_string("wood:bark:x")), Err(4));
    assert_eq!(st.get_id(&MaterialIdentifier::from_string("wood:leaf")), Err(3));
}

#[test]
fn direction_bits_and_culling() {
    assert_eq!(Direction::Up.get_bit(), 0b100000);
    assert_eq!(Direction::Backwards.get_bit(), 1);
    assert_eq!(Direction::Left.get_bit_offset(), 3);
    let up_occupied = 0b100000u8;
    assert!(Cullable::Never.is_visible(0xff));
    assert!(!Cullable::WhenVisible(Direction::Up).is_visible(up_occupied));
    assert!(Cullable::WhenVisible(Direction::Down).is_visible(up_occupied));
    assert!(Cullable::WhenHidden(Direction::Up).is_visible(up_occupied));
    assert!(!Cullable::WhenHidden(Direction::Forward).is_visible(up_occupied));
    assert_eq!(Cullable::default(), Cullable::Never);
}

#[test]
fn up_face_quad_spans_size_centred_at_origin() {
    let [w, _normal, h] = Direction::Up.get_coords();
    let size = (2.0f32, 1.0f32);
    let offset = (0.0f32, 0.0f32, 0.0f32);
    let verts: Vec<(f32, f32, f32)> = quad_corners()
        .iter()
        .map(|&(sx, sy)| {
            let a = sx as f32 * size.0 / 2.0;
            let b = sy as f32 * size.1 / 2.0;
            (
                w.0 as f32 * a + h.0 as f32 * b + offset.0,
                w.1 as f32 * a + h.1 as f32 * b + offset.1,
                w.2 as f32 * a + h.2 as f32 * b + offset.2,
            )
        })
        .collect();
    let xs: Vec<f32> = verts.iter().map(|v| v.0).collect();
    let zs: Vec<f32> = verts.iter().map(|v| v.2).collect();
    let span = |v: &Vec<f32>| v.iter().cloned().fold(f32::MIN, f32::max) - v.iter().cloned().fold(f32::MAX, f32::min);
    assert_eq!(span(&xs), 2.0);
    assert_eq!(span(&zs), 1.0);
    assert!(verts.iter().all(|v| v.1 == 0.0));
    let centre: (f32, f32) = (xs.iter().sum::<f32>() / 4.0, zs.iter().sum::<f32>() / 4.0);
    assert_eq!(centre, (0.0, 0.0));
    assert_eq!(quad_uvs(), [(0, 0), (1, 0), (0, 1), (1, 1)]);
}

#[test]
fn registry_has_a_slot_per_shape() {
    let mut reg = RegistryContainers::new(|| 0u32);
    assert_eq!(*reg.get(-1), 0);
    assert_eq!(reg.replace(5, 7), 0);
    assert_eq!(*reg.get(5), 7);
    assert_eq!(*reg.get(19), 0);
}

#[test]
fn mesh_corner_tokens_and_triangulation() {
    assert_eq!(parse_u16("+12"), Some(12));
    assert_eq!(parse_u16("65535"), Some(65535));
    assert_eq!(parse_u16("65536"), None);
    assert_eq!(parse_u16(""), None);
    assert_eq!(parse_u16("1a"), None);
    assert_eq!(parse_corner("1/2/3"), Some((1, 2, 3)));
    assert_eq!(parse_corner("1/2/3/4"), Some((1, 2, 3)));
    assert_eq!(parse_corner("1//3"), None);
    assert_eq!(parse_corner("1/2"), None);
    assert_eq!(triangulate(&vec![1, 2, 3]), vec![1, 2, 3]);
    assert_eq!(triangulate(&vec![1, 2, 3, 4]), vec![1, 2, 3, 2, 4, 1]);
    let e = MeshLoadingError::new("m.obj".to_string(), "bad".to_string());
    assert_eq!(e.message(), "Error while loading mesh at (m.obj): bad");
}

#[test]
fn neighbour_mask_bits_follow_directions() {
    use_mask();
}

fn use_mask() {
    let m = fortress_models::model::get_mask(true, false, false, true, false, true);
    assert_eq!(m, 0b100101);
    assert!(!Cullable::WhenVisible(Direction::Right).is_visible(m));
    assert!(Cullable::WhenVisible(Direction::Left).is_visible(m));
    assert!(Cullable::WhenHidden(Direction::Backwards).is_visible(m));
}

#[test]
fn trie_nodes_made_on_the_way_hold_no_model() {
    let mut st = MaterialIdentifierStorage::new();
    st.set_id(&MaterialIdentifier::from_string("wood:bark"), 4);
    assert_eq!(st.get_id(&MaterialIdentifier::from_string("wood:bark")), Ok(4));
    assert_eq!(st.get_id(&MaterialIdentifier::from_string("wood")), Err(0));
    assert_eq!(st.get_id(&MaterialIdentifier::from_string("wood:structural")), Err(0));
}

#[test]
fn trie_lookup_of_extensions_of_a_set_path() {
    let mut st = MaterialIdentifierStorage::new();
    st.set_id(&MaterialIdentifier::from_string("wood"), 5);
    assert_eq!(st.get_id(&MaterialIdentifier::from_string("wood")), Ok(5));
    assert_eq!(st.get_id(&MaterialIdentifier::from_string("wood:structural")), Ok(5));
    assert_eq!(st.get_id(&MaterialIdentifier::from_string("wood:bark")), Err(5));
    assert_eq!(st.get_id(&MaterialIdentifier::from_string("stone")), Err(0));
}

#[test]
fn split_and_corner_numbers() {
    assert_eq!(split_char("a/b//c/", '/'), vec![s("a"), s("b"), s(""), s("c"), s("")]);
    assert_eq!(split_char("", '/'), vec![s("")]);
    assert_eq!(corner_index(1, 3), Some(0));
    assert_eq!(corner_index(3, 3), Some(2));
    assert_eq!(corner_index(0, 3), None);
    assert_eq!(corner_index(4, 3), None);
}

#[test]
fn shared_literal_gets_one_table_slot_across_files() {
    let defs = vec![
        RawDefinition { path: s("a.ron"), elements: vec![params(&[("t", "x.png")]), face("t")] },
        RawDefinition { path: s("b.ron"), elements: vec![params(&[("u", "#v"), ("v", "x.png")]), face("u")] },
    ];
    let (folders, textures) = match load_models(&defs, &vec![vec![0], vec![1]]) {
        Ok(r) => r,
        Err(_) => panic!("loading failed"),
    };
    assert_eq!(textures, vec![s("x.png")]);
    assert_eq!(folders[0][0].models[0].texture_index(), folders[1][0].models[0].texture_index());
}

#[test]
fn failing_chain_fails_the_load() {
    let defs = vec![RawDefinition { path: s("a.ron"), elements: vec![params(&[("t", "#t")]), face("t")] }];
    match load_models(&defs, &vec![vec![0]]) {
        Err(LoadError::CyclicIndirection(chain)) => assert_eq!(chain, vec![s("t"), s("t")]),
        _ => panic!("expected a cyclic indirection error"),
    }
}
