use std::sync::Arc;

use lme_core::codec::{molecule_from_json, molecule_to_json};
use lme_core::compact::clean_molecule;
use lme_core::error::LMECoreError;
use lme_core::layer::Layer;
use lme_core::molecule::{Atom, AtomTable, BondGraph, GroupTable, Molecule, Vec3};
use lme_core::pair::Pair;
use lme_core::plugin::{plugin_failure, PluginFault, ReadOutcome};
use lme_core::stack::Stack;
use lme_core::stacktree::StackTree;
use lme_core::store::{create_server_store, WorkspaceExport};
use lme_core::numbers::{check_json_number, format_usize, parse_usize_at};
use lme_core::workspace::Workspace;

fn pos(x: &str, y: &str, z: &str) -> Vec3 {
    Vec3::new(x.to_string(), y.to_string(), z.to_string()).unwrap()
}

fn atom(element: usize, x: &str, y: &str, z: &str) -> Atom {
    Atom::new(element, pos(x, y, z))
}

fn mol_of(atoms: Vec<(usize, Option<Atom>)>) -> Molecule {
    let mut t = AtomTable::new();
    for (k, v) in atoms {
        t.insert(k, v);
    }
    Molecule::new(t, BondGraph::new(), GroupTable::new())
}

fn one_layer_stack(layer: Layer) -> Arc<Stack> {
    Arc::new(Stack::new(vec![Arc::new(layer)]))
}

#[test]
fn merge_left_bias_on_values() {
    let low = mol_of(vec![
        (1, Some(atom(6, "0", "0", "0"))),
        (2, Some(atom(1, "0", "0", "1"))),
    ]);
    let high = mol_of(vec![(2, None), (3, Some(atom(8, "1", "1", "1")))]);
    let merged = Molecule::merge(low, high);
    assert!(matches!(merged.atoms.get(1), Some(Some(a)) if a.element == 6));
    assert!(matches!(merged.atoms.get(2), Some(None)));
    assert!(matches!(merged.atoms.get(3), Some(Some(a)) if a.element == 8));
    assert!(merged.atoms.get(4).is_none());
}

#[test]
fn scenario_fill_then_transform() {
    let translate: Vec<String> = [
        "1", "0", "0", "1", "0", "1", "0", "0", "0", "0", "1", "0", "0", "0", "0", "1",
    ]
    .iter()
    .map(|s| s.to_string())
    .collect();
    let fill = Layer::Fill(mol_of(vec![(1, Some(atom(6, "0", "0", "0")))]));
    let stack = Stack::new(vec![Arc::new(fill), Arc::new(Layer::Transform(translate))]);
    let base = Molecule::empty();
    let got = stack.read(base).unwrap();
    match got.atoms.get(1) {
        Some(Some(a)) => {
            assert_eq!(a.element, 6);
            assert_eq!(a.position.x, "1.0");
            assert_eq!(a.position.y, "0.0");
            assert_eq!(a.position.z, "0.0");
        },
        _ => panic!("atom 1 should be live"),
    }
    assert_eq!(got.bonds.len(), 0);
    assert_eq!(got.groups.len(), 0);
}

#[test]
fn scenario_write_collapses_into_top_fill() {
    let m1 = mol_of(vec![(1, Some(atom(6, "0", "0", "0")))]);
    let m2 = mol_of(vec![(2, Some(atom(1, "0", "0", "1")))]);
    let mut stack = Stack::new(vec![Arc::new(Layer::Fill(m1.duplicate()))]);
    stack.write(m2.duplicate());
    assert_eq!(stack.layers.len(), 1);
    let expected = Layer::Fill(Molecule::merge(m1, m2));
    assert!(stack.layers[0].eq_value(&expected));
}

#[test]
fn scenario_remove_then_fill() {
    let base = mol_of(vec![(1, Some(atom(1, "0", "0", "0")))]);
    let carbon = mol_of(vec![(1, Some(atom(6, "0", "0", "0")))]);
    let ordered = Stack::new(vec![
        Arc::new(Layer::RemoveElement(1)),
        Arc::new(Layer::Fill(carbon.duplicate())),
    ]);
    let got = ordered.read(base.duplicate()).unwrap();
    assert!(matches!(got.atoms.get(1), Some(Some(a)) if a.element == 6));
    let hydrogen = mol_of(vec![(1, Some(atom(1, "0", "0", "0")))]);
    let reordered = Stack::new(vec![
        Arc::new(Layer::Fill(hydrogen)),
        Arc::new(Layer::RemoveElement(1)),
    ]);
    let got2 = reordered.read(base).unwrap();
    assert!(matches!(got2.atoms.get(1), Some(None)));
}

#[test]
fn scenario_dehydrate_common_prefix() {
    let a = Layer::Fill(mol_of(vec![(1, Some(atom(6, "0", "0", "0")))]));
    let b = Layer::Fill(mol_of(vec![(2, Some(atom(1, "0", "0", "0")))]));
    let c = Layer::Fill(mol_of(vec![(3, Some(atom(8, "0", "0", "0")))]));
    let a0 = Arc::new(a);
    let s0 = Arc::new(Stack::new(vec![a0.clone(), Arc::new(b)]));
    let s1 = Arc::new(Stack::new(vec![a0.clone(), Arc::new(c)]));
    let stacks = vec![s0.clone(), s1.clone()];
    let forest = StackTree::dehydration(&stacks);
    assert_eq!(forest.len(), 1);
    assert!(forest[0].layer.eq_value(a0.as_ref()));
    assert_eq!(forest[0].indexes, Vec::<usize>::new());
    assert_eq!(forest[0].children.len(), 2);
    assert_eq!(forest[0].children[0].indexes, vec![0]);
    assert_eq!(forest[0].children[1].indexes, vec![1]);
    let rebuilt = StackTree::hydration(&forest).unwrap();
    assert_eq!(rebuilt.len(), 2);
    for (orig, back) in [(&s0, &rebuilt[0]), (&s1, &rebuilt[1])] {
        assert_eq!(orig.layers.len(), back.layers.len());
        for (l1, l2) in orig.layers.iter().zip(back.layers.iter()) {
            assert!(l1.eq_value(l2));
        }
    }
}

#[test]
fn hydration_rejects_bad_indices() {
    let a = Layer::Fill(mol_of(vec![(1, Some(atom(6, "0", "0", "0")))]));
    let tree = StackTree { layer: a, indexes: vec![1], children: vec![] };
    assert!(StackTree::hydration(&vec![tree]).is_none());
}

#[test]
fn scenario_plugin_spawn_failure_code() {
    let base = Molecule::empty();
    let mut ws = Workspace::new(base);
    ws.create_stack(
        one_layer_stack(Layer::PluginFilter("missing_binary".to_string(), vec![])),
        0,
    );
    match ws.read(0) {
        ReadOutcome::Call(call, _) => {
            assert_eq!(call.command, "missing_binary");
            let err = plugin_failure(PluginFault::Spawn, "no such program".to_string());
            match err {
                LMECoreError::PluginLayerError(code, _) => assert_eq!(code, -1),
                _ => panic!("wrong error kind"),
            }
        },
        _ => panic!("a plugin stack must stop at the call"),
    }
    assert_eq!(ws.stacks(), 1);
}

#[test]
fn plugin_parse_failure_code() {
    let mut ws = Workspace::new(Molecule::empty());
    ws.create_stack(
        one_layer_stack(Layer::PluginFilter("echo".to_string(), vec![])),
        0,
    );
    match ws.read(0) {
        ReadOutcome::Call(_, pending) => {
            match lme_core::plugin::resume(pending, "not a document") {
                ReadOutcome::Failed(LMECoreError::PluginLayerError(code, _)) => {
                    assert_eq!(code, -5)
                },
                _ => panic!("an unreadable answer must fail with the parse code"),
            }
        },
        _ => panic!("expected the prepared call"),
    }
}

#[test]
fn plugin_echo_leaves_read_unchanged() {
    let filled = mol_of(vec![(1, Some(atom(6, "0.5", "1.5", "-2.5")))]);
    let mut ws = Workspace::new(Molecule::empty());
    ws.create_stack(
        Arc::new(Stack::new(vec![
            Arc::new(Layer::Fill(filled.duplicate())),
            Arc::new(Layer::PluginFilter("echo".to_string(), vec![])),
        ])),
        0,
    );
    let outcome = ws.read(0);
    match outcome {
        ReadOutcome::Call(call, pending) => {
            let echoed = call.input.clone();
            match lme_core::plugin::resume(pending, &echoed) {
                ReadOutcome::Done(m) => {
                    let plain = Stack::new(vec![Arc::new(Layer::Fill(filled))]);
                    let want = plain.read(Molecule::empty()).unwrap();
                    assert!(m.eq_value(&want));
                },
                _ => panic!("echoing the input must finish the read"),
            }
        },
        _ => panic!("expected the prepared call"),
    }
}

#[test]
fn scenario_out_of_range_batch_changes_nothing() {
    let mut ws = Workspace::new(Molecule::empty());
    ws.create_stack(one_layer_stack(Layer::IgnoreBonds), 2);
    let before: Vec<Arc<Stack>> = ws.stacks.iter().cloned().collect();
    let patch = mol_of(vec![(1, Some(atom(6, "0", "0", "0")))]);
    assert!(!ws.write_to_stack(2, 5, patch));
    assert_eq!(ws.stacks.len(), 3);
    for (a, b) in before.iter().zip(ws.stacks.iter()) {
        assert!(Arc::ptr_eq(a, b));
    }
}

#[test]
fn batch_write_touches_only_the_range() {
    let mut ws = Workspace::new(Molecule::empty());
    ws.create_stack(one_layer_stack(Layer::Fill(Molecule::empty())), 2);
    let before: Vec<Arc<Stack>> = ws.stacks.iter().cloned().collect();
    let patch = mol_of(vec![(7, Some(atom(6, "0", "0", "0")))]);
    assert!(ws.write_to_stack(1, 1, patch));
    assert!(Arc::ptr_eq(&before[0], &ws.stacks[0]));
    assert!(!Arc::ptr_eq(&before[1], &ws.stacks[1]));
    assert!(Arc::ptr_eq(&before[2], &ws.stacks[2]));
    match ws.read(1) {
        ReadOutcome::Done(m) => {
            assert!(matches!(m.atoms.get(7), Some(Some(a)) if a.element == 6))
        },
        _ => panic!("a pure stack must read to completion"),
    }
}

#[test]
fn clone_stack_shares_the_stored_stack() {
    let mut ws = Workspace::new(Molecule::empty());
    ws.create_stack(one_layer_stack(Layer::IgnoreBonds), 0);
    let first = ws.clone_stack(0, 1).unwrap();
    assert_eq!(first, 1);
    assert_eq!(ws.stacks.len(), 3);
    assert!(Arc::ptr_eq(&ws.stacks[0], &ws.stacks[1]));
    assert!(Arc::ptr_eq(&ws.stacks[0], &ws.stacks[2]));
    assert!(ws.clone_stack(9, 1).is_none());
}

#[test]
fn clone_base_drops_the_top_layer() {
    let mut ws = Workspace::new(Molecule::empty());
    ws.create_stack(
        Arc::new(Stack::new(vec![
            Arc::new(Layer::IgnoreBonds),
            Arc::new(Layer::RemoveElement(1)),
        ])),
        0,
    );
    let first = ws.clone_base(0, 0).unwrap();
    assert_eq!(first, 1);
    assert_eq!(ws.stacks[1].layers.len(), 1);
    assert!(ws.stacks[1].layers[0].eq_value(&Layer::IgnoreBonds));
}

#[test]
fn add_layer_shares_the_layer() {
    let mut ws = Workspace::new(Molecule::empty());
    ws.create_stack(one_layer_stack(Layer::IgnoreBonds), 1);
    let shared = Arc::new(Layer::RemoveElement(1));
    assert!(ws.add_layer_to_stack(0, 2, shared.clone()));
    assert!(Arc::ptr_eq(&ws.stacks[0].layers[1], &shared));
    assert!(Arc::ptr_eq(&ws.stacks[1].layers[1], &shared));
}

#[test]
fn replace_and_remove_element() {
    let m = mol_of(vec![
        (1, Some(atom(1, "0", "0", "0"))),
        (2, Some(atom(6, "0", "0", "1"))),
    ]);
    let replaced = Layer::ReplaceElement(1, 9).filter(m.duplicate()).unwrap();
    assert!(matches!(replaced.atoms.get(1), Some(Some(a)) if a.element == 9));
    assert!(matches!(replaced.atoms.get(2), Some(Some(a)) if a.element == 6));
    let removed = Layer::RemoveElement(6).filter(m).unwrap();
    assert!(matches!(removed.atoms.get(1), Some(Some(a)) if a.element == 1));
    assert!(matches!(removed.atoms.get(2), Some(None)));
}

#[test]
fn ignore_bonds_clears_edges() {
    let mut bonds = BondGraph::new();
    bonds.insert(Pair::new(1, 2), Some("1.5".to_string()));
    let m = Molecule::new(
        AtomTable::new(),
        bonds,
        GroupTable::new(),
    );
    let cleared = Layer::IgnoreBonds.filter(m).unwrap();
    assert_eq!(cleared.bonds.len(), 0);
    let again = Layer::IgnoreBonds.filter(cleared).unwrap();
    assert_eq!(again.bonds.len(), 0);
}

#[test]
fn codec_round_trip() {
    let mut atoms = AtomTable::new();
    atoms.insert(1, Some(atom(6, "0.5", "-1.5e3", "0")));
    atoms.insert(2, None);
    let mut bonds = BondGraph::new();
    bonds.insert(Pair::new(1, 2), Some("1.5".to_string()));
    bonds.insert(Pair::new(2, 3), None);
    let mut groups = GroupTable::new();
    groups.insert(1, "ring \"quoted\"\\\n\u{7}".to_string());
    let m = Molecule::new(atoms, bonds, groups);
    let text = molecule_to_json(&m);
    let back = molecule_from_json(text.as_str()).expect("the writer's document must read back");
    assert!(back.eq_value(&m));
    assert!(molecule_from_json("{}").is_none());
}

#[test]
fn codec_writes_the_expected_document() {
    let m = mol_of(vec![(1, Some(atom(6, "0.5", "1", "0")))]);
    let text = molecule_to_json(&m);
    assert_eq!(
        text,
        "{\"atoms\":{\"1\":{\"element\":6,\"position\":[0.5,1,0]}},\"bonds\":{},\"groups\":[]}"
    );
}

#[test]
fn clean_drops_tombstones_and_remaps() {
    let mut atoms = AtomTable::new();
    atoms.insert(5, Some(atom(6, "0", "0", "0")));
    atoms.insert(3, None);
    atoms.insert(9, Some(atom(1, "1", "0", "0")));
    let mut bonds = BondGraph::new();
    bonds.insert(Pair::new(5, 9), Some("1".to_string()));
    bonds.insert(Pair::new(3, 5), Some("2".to_string()));
    bonds.insert(Pair::new(5, 7), None);
    let mut groups = GroupTable::new();
    groups.insert(9, "site".to_string());
    groups.insert(3, "gone".to_string());
    let m = Molecule::new(atoms, bonds, groups);
    let c = clean_molecule(&m);
    assert_eq!(c.old_indexes, vec![5, 9]);
    assert_eq!(c.atoms.len(), 2);
    assert_eq!(c.atoms[0].element, 6);
    assert_eq!(c.atoms[1].element, 1);
    assert_eq!(c.bonds.len(), 1);
    assert_eq!(c.bonds[0].0.components(), (0, 1));
    assert_eq!(c.bonds[0].1, "1");
    assert_eq!(c.groups, vec![(1, "site".to_string())]);
    let back = c.unzip(10);
    assert!(matches!(back.atoms.get(10), Some(Some(a)) if a.element == 6));
    assert!(matches!(back.atoms.get(11), Some(Some(a)) if a.element == 1));
    assert_eq!(back.bonds.len(), 1);
}

#[test]
fn store_create_and_remove() {
    let mut store = create_server_store();
    let ws = Workspace::new(Molecule::empty());
    assert!(store.create_workspace("alpha".to_string(), ws).is_ok());
    let ws2 = Workspace::new(Molecule::empty());
    match store.create_workspace("alpha".to_string(), ws2) {
        Err(LMECoreError::WorkspaceNameConflict) => {},
        _ => panic!("a taken name must be refused"),
    }
    assert!(store.lookup(&"alpha".to_string()).is_some());
    assert!(store.remove_workspace(&"alpha".to_string()).is_ok());
    match store.remove_workspace(&"alpha".to_string()) {
        Err(LMECoreError::WorkspaceNotFound) => {},
        _ => panic!("an absent name must be refused"),
    }
}

#[test]
fn remove_stack_shifts_later_slots() {
    let mut ws = Workspace::new(Molecule::empty());
    ws.create_stack(one_layer_stack(Layer::IgnoreBonds), 0);
    ws.create_stack(one_layer_stack(Layer::RemoveElement(1)), 0);
    assert_eq!(ws.stacks(), 2);
    ws.remove_stack(0);
    assert_eq!(ws.stacks(), 1);
    assert!(ws.stacks[0].layers[0].eq_value(&Layer::RemoveElement(1)));
}

#[test]
fn import_rejects_a_bad_name_listing() {
    let mut ws = Workspace::new(Molecule::empty());
    ws.create_stack(one_layer_stack(Layer::IgnoreBonds), 0);
    let mut ex = ws.export();
    ex.atom_names = vec![("a".to_string(), 1), ("b".to_string(), 1)];
    assert!(Workspace::from_export(&ex).is_none());
}

#[test]
fn read_out_of_range_fails() {
    let ws = Workspace::new(Molecule::empty());
    match ws.read(0) {
        ReadOutcome::Failed(LMECoreError::NoSuchStack) => {},
        _ => panic!("an index past the stacks must fail"),
    }
}

#[test]
fn export_and_import_round_trip() {
    let mut ws = Workspace::new(Molecule::empty());
    let a = Arc::new(Layer::Fill(mol_of(vec![(1, Some(atom(6, "0", "0", "0")))])));
    let b = Arc::new(Layer::RemoveElement(6));
    ws.create_stack(Arc::new(Stack::new(vec![a.clone(), b])), 0);
    ws.create_stack(Arc::new(Stack::new(vec![a])), 0);
    ws.atom_names.insert("center".to_string(), 1);
    ws.groups.insert(1, "ring".to_string());
    let ex = ws.export();
    let back = Workspace::from_export(&ex).expect("an exported workspace must import");
    assert_eq!(back.stacks.len(), 2);
    for (orig, got) in ws.stacks.iter().zip(back.stacks.iter()) {
        assert_eq!(orig.layers.len(), got.layers.len());
        for (l1, l2) in orig.layers.iter().zip(got.layers.iter()) {
            assert!(l1.eq_value(l2));
        }
    }
    assert_eq!(back.atom_names, ws.atom_names);
    assert_eq!(back.groups.data(), ws.groups.data());
}

#[test]
fn stack_identity_reads() {
    let base = mol_of(vec![(1, Some(atom(6, "0", "0", "0")))]);
    let empty_stack = Stack::default();
    let got = empty_stack.read(base.duplicate()).unwrap();
    assert!(got.eq_value(&base));
    let fill_empty = Stack::new(vec![Arc::new(Layer::Fill(Molecule::empty()))]);
    let got2 = fill_empty.read(base.duplicate()).unwrap();
    assert!(got2.eq_value(&base));
}

#[test]
fn number_text_round_trip() {
    let text = format_usize(90125);
    assert_eq!(text, "90125");
    assert_eq!(parse_usize_at(&text, 0), Some((90125, 5)));
    assert!(check_json_number("-1.5e-3"));
    assert!(check_json_number("0"));
    assert!(!check_json_number("01"));
    assert!(!check_json_number("1."));
    assert!(!check_json_number(""));
}
