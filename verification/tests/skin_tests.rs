use daz_skinning::document::{Array, GeometryRecord, NodeRecord, NodeType};
use daz_skinning::skin_binding::{
    assign, bind_skin, bits_of_key, claims_fit, follow_pairs, joint_ids, joint_index,
    key_of_bits, process_skin, resolve_claims,
    BindingFault, ClaimOutcome, Influence, JointClaims, SkinBinding, VertexInfluence,
    WeightedJoint, MAX_INFLUENCES,
};

fn key(weight: f32) -> u32 {
    key_of_bits(weight.to_bits())
}

fn inf(joint: usize, weight: f32) -> Influence {
    Influence { joint, weight: key(weight) }
}

fn bone(id: &str) -> NodeRecord {
    NodeRecord {
        id: id.to_string(),
        name: id.to_string(),
        node_type: NodeType::Bone,
        parent: None,
        inherits_scale: true,
    }
}

fn weighted(node: &str, weights: Option<Vec<(usize, f32)>>) -> WeightedJoint {
    WeightedJoint {
        id: node.trim_start_matches('#').to_string(),
        node: node.to_string(),
        node_weights: weights.map(|w| Array {
            count: w.len(),
            values: w.into_iter().map(|(v, x)| (v, key(x))).collect(),
        }),
    }
}

#[test]
fn five_claims_on_one_vertex_leave_the_exact_trace() {
    let mut v = VertexInfluence::new();
    assert_eq!(v.claim(0, key(0.1)), ClaimOutcome::Occupied(0));
    assert_eq!(v.claim(1, key(0.4)), ClaimOutcome::Occupied(1));
    assert_eq!(v.claim(2, key(0.2)), ClaimOutcome::Occupied(2));
    // a free slot is left, so the lightest claim still finds a place
    assert_eq!(v.claim(3, key(0.05)), ClaimOutcome::Occupied(3));
    assert_eq!(v.excess, 0);
    // the vertex is full: the fifth claim evicts the lightest influence
    assert_eq!(v.claim(4, key(0.5)), ClaimOutcome::Evicted(3, inf(3, 0.05)));
    assert_eq!(v.slots, vec![inf(0, 0.1), inf(1, 0.4), inf(2, 0.2), inf(4, 0.5)]);
    assert_eq!(v.excess, 1);
}

#[test]
fn lighter_claim_on_a_full_vertex_is_discarded_then_heavier_evicts_the_minimum() {
    let mut v = VertexInfluence::new();
    assert_eq!(v.claim(0, key(0.1)), ClaimOutcome::Occupied(0));
    assert_eq!(v.claim(1, key(0.4)), ClaimOutcome::Occupied(1));
    assert_eq!(v.claim(2, key(0.2)), ClaimOutcome::Occupied(2));
    assert_eq!(v.claim(3, key(0.3)), ClaimOutcome::Occupied(3));
    assert_eq!(v.claim(4, key(0.05)), ClaimOutcome::Discarded);
    assert_eq!(v.slots, vec![inf(0, 0.1), inf(1, 0.4), inf(2, 0.2), inf(3, 0.3)]);
    assert_eq!(v.claim(5, key(0.5)), ClaimOutcome::Evicted(0, inf(0, 0.1)));
    assert_eq!(v.slots, vec![inf(5, 0.5), inf(1, 0.4), inf(2, 0.2), inf(3, 0.3)]);
    assert_eq!(v.excess, 2);
    assert_eq!(v.joint_indices(), [5, 1, 2, 3]);
}

#[test]
fn claim_as_heavy_as_the_minimum_is_discarded() {
    let mut v = VertexInfluence::new();
    for j in 0..4 {
        v.claim(j, 7);
    }
    assert_eq!(v.claim(9, 7), ClaimOutcome::Discarded);
    // among equally light influences the first slot gives way
    assert_eq!(v.claim(9, 8), ClaimOutcome::Evicted(0, Influence { joint: 0, weight: 7 }));
    assert_eq!(v.claim(10, 8), ClaimOutcome::Evicted(1, Influence { joint: 1, weight: 7 }));
    assert_eq!(v.slots.len(), MAX_INFLUENCES);
}

#[test]
fn empty_slots_read_as_joint_zero_without_weight() {
    let mut v = VertexInfluence::new();
    assert_eq!(v.joint_indices(), [0, 0, 0, 0]);
    assert_eq!(v.weight_at(0), None);
    v.claim(65_537, 12);
    v.claim(3, 4);
    assert_eq!(v.joint_indices(), [1, 3, 0, 0]);
    assert_eq!(v.joint_at(0), 1);
    assert_eq!(v.joint_at(1), 3);
    assert_eq!(v.joint_at(7), 0);
    assert_eq!(v.weight_at(0), Some(12));
    assert_eq!(v.weight_at(1), Some(4));
    assert_eq!(v.weight_at(2), None);
}

#[test]
fn the_heaviest_claims_stay() {
    let weights: Vec<u32> = vec![5, 1, 9, 3, 3, 8, 2, 9, 4, 10, 0, 6];
    let mut v = VertexInfluence::new();
    for (j, &w) in weights.iter().enumerate() {
        v.claim(j, w);
    }
    let mut kept: Vec<u32> = v.slots.iter().map(|s| s.weight).collect();
    kept.sort();
    assert_eq!(kept, vec![8, 9, 9, 10]);
    for s in &v.slots {
        assert_eq!(weights[s.joint], s.weight);
    }
    assert_eq!(v.excess, weights.len() - 4);
}

#[test]
fn assign_takes_joints_and_weights_in_order() {
    let joints = vec![
        JointClaims { joint: 0, weights: vec![(0, 10), (2, 30)] },
        JointClaims { joint: 1, weights: vec![(2, 5), (0, 20)] },
        JointClaims { joint: 2, weights: vec![(2, 1), (2, 2), (2, 50)] },
    ];
    let vertices = assign(3, &joints);
    assert_eq!(vertices.len(), 3);
    assert_eq!(
        vertices[0].slots,
        vec![Influence { joint: 0, weight: 10 }, Influence { joint: 1, weight: 20 }]
    );
    assert!(vertices[1].slots.is_empty());
    assert_eq!(vertices[1].joint_indices(), [0, 0, 0, 0]);
    assert_eq!(
        vertices[2].slots,
        vec![
            Influence { joint: 0, weight: 30 },
            Influence { joint: 1, weight: 5 },
            Influence { joint: 2, weight: 50 },
            Influence { joint: 2, weight: 2 },
        ]
    );
    assert_eq!(vertices[2].excess, 1);
    assert_eq!(vertices[0].excess, 0);
}

#[test]
fn assign_without_joints_leaves_every_vertex_vacant() {
    let vertices = assign(4, &Vec::new());
    assert_eq!(vertices.len(), 4);
    assert!(vertices.iter().all(|v| v.slots.is_empty() && v.excess == 0));
    assert!(assign(0, &Vec::new()).is_empty());
}

#[test]
fn the_order_of_the_claims_decides() {
    let forward: Vec<JointClaims> =
        (0..6).map(|j| JointClaims { joint: j, weights: vec![(0, 5)] }).collect();
    let backward: Vec<JointClaims> =
        (0..6).rev().map(|j| JointClaims { joint: j, weights: vec![(0, 5)] }).collect();
    assert_eq!(assign(1, &forward)[0].joint_indices(), [0, 1, 2, 3]);
    assert_eq!(assign(1, &backward)[0].joint_indices(), [5, 4, 3, 2]);
}

#[test]
fn joint_list_holds_the_bones_in_file_order() {
    let mut records = vec![bone("hip"), bone("spine"), bone("head")];
    records[1].node_type = NodeType::Figure;
    records.push(bone("hip"));
    let ids = joint_ids(&records);
    assert_eq!(ids, vec!["hip".to_string(), "head".to_string(), "hip".to_string()]);
    assert_eq!(joint_index(&ids, "hip"), Some(2));
    assert_eq!(joint_index(&ids, "head"), Some(1));
    assert_eq!(joint_index(&ids, "spine"), None);
    assert_eq!(joint_index(&Vec::new(), "hip"), None);
}

#[test]
fn joints_that_cannot_be_resolved_make_no_claims() {
    let ids = vec!["hip".to_string(), "head".to_string()];
    let joints = vec![
        weighted("#head", Some(vec![(0, 0.5)])),
        weighted("#tail", Some(vec![(0, 0.9)])),
        weighted("#hip", None),
        weighted("", Some(vec![(0, 0.9)])),
        weighted("#hip", Some(vec![(1, 0.25), (0, 0.75)])),
    ];
    let claims = resolve_claims(&joints, &ids);
    assert_eq!(claims.len(), 2);
    assert_eq!(claims[0].joint, 1);
    assert_eq!(claims[0].weights, vec![(0, key(0.5))]);
    assert_eq!(claims[1].joint, 0);
    assert_eq!(claims[1].weights, vec![(1, key(0.25)), (0, key(0.75))]);
    assert!(claims_fit(&claims, 2));
    assert!(!claims_fit(&claims, 1));
    assert!(claims_fit(&Vec::new(), 0));
}

fn skin(vertex_count: usize, joints: Option<Vec<WeightedJoint>>) -> SkinBinding {
    SkinBinding {
        node: "#hip".to_string(),
        geometry: "#body".to_string(),
        vertex_count,
        joints,
    }
}

#[test]
fn binding_with_a_mismatched_geometry_is_dropped() {
    let ids = vec!["hip".to_string()];
    let s = skin(3, Some(vec![weighted("#hip", Some(vec![(0, 1.0)]))]));
    assert_eq!(bind_skin(&s, None, &ids).unwrap_err(), BindingFault::GeometryMismatch);
    assert_eq!(bind_skin(&s, Some(4), &ids).unwrap_err(), BindingFault::GeometryMismatch);
    assert!(bind_skin(&s, Some(3), &ids).is_ok());
}

#[test]
fn binding_without_joints_is_dropped() {
    let ids = vec!["hip".to_string()];
    assert_eq!(bind_skin(&skin(3, None), Some(3), &ids).unwrap_err(), BindingFault::NoJoints);
    // the geometry is looked at first
    assert_eq!(
        bind_skin(&skin(3, None), Some(2), &ids).unwrap_err(),
        BindingFault::GeometryMismatch
    );
}

#[test]
fn binding_with_a_weight_beyond_the_geometry_is_dropped() {
    let ids = vec!["hip".to_string()];
    let s = skin(3, Some(vec![weighted("#hip", Some(vec![(0, 1.0), (3, 0.5)]))]));
    assert_eq!(bind_skin(&s, Some(3), &ids).unwrap_err(), BindingFault::VertexOutOfRange);
    // the claims of a joint that is not in the list do not count
    let t = skin(3, Some(vec![weighted("#tail", Some(vec![(9, 1.0)]))]));
    let vertices = bind_skin(&t, Some(3), &ids).unwrap();
    assert_eq!(vertices.len(), 3);
    assert!(vertices.iter().all(|v| v.slots.is_empty()));
}

#[test]
fn binding_gives_each_vertex_its_influences() {
    let ids = vec!["hip".to_string(), "spine".to_string(), "head".to_string()];
    let s = skin(
        2,
        Some(vec![
            weighted("#spine", Some(vec![(0, 0.25), (1, 1.0)])),
            weighted("#head", Some(vec![(0, 0.75)])),
        ]),
    );
    let vertices = bind_skin(&s, Some(2), &ids).unwrap();
    assert_eq!(vertices[0].slots, vec![inf(1, 0.25), inf(2, 0.75)]);
    assert_eq!(vertices[1].slots, vec![inf(1, 1.0)]);
    assert_eq!(vertices[0].joint_indices(), [1, 2, 0, 0]);
}

#[test]
fn skin_finds_its_geometry_by_reference() {
    let g = |id: &str, n: usize| GeometryRecord {
        id: id.to_string(),
        name: None,
        vertex_count: n,
        polygons: Vec::new(),
        default_uv_set: None,
    };
    let geometries = vec![g("eyes", 2), g("body", 3)];
    let ids = vec!["hip".to_string()];
    let s = skin(3, Some(vec![weighted("#hip", Some(vec![(2, 1.0)]))]));
    let (at, vertices) = process_skin(&s, &geometries, &ids).unwrap();
    assert_eq!(at, 1);
    assert_eq!(vertices.len(), 3);
    assert_eq!(vertices[2].slots, vec![inf(0, 1.0)]);

    let mut missing = s.clone();
    missing.geometry = "#mouth".to_string();
    assert_eq!(
        process_skin(&missing, &geometries, &ids).unwrap_err(),
        BindingFault::GeometryMismatch
    );
    let mut wrong_count = s.clone();
    wrong_count.geometry = "#eyes".to_string();
    assert_eq!(
        process_skin(&wrong_count, &geometries, &ids).unwrap_err(),
        BindingFault::GeometryMismatch
    );
    let mut no_reference = s.clone();
    no_reference.geometry = String::new();
    assert_eq!(
        process_skin(&no_reference, &geometries, &ids).unwrap_err(),
        BindingFault::GeometryMismatch
    );
}

#[test]
fn followers_are_paired_with_leaders_by_name() {
    let names = |list: &[&str]| list.iter().map(|s| s.to_string()).collect::<Vec<_>>();
    let leaders = names(&["hip", "spine", "head", "hip"]);
    let followers = names(&["head", "jaw", "hip", "head"]);
    assert_eq!(follow_pairs(&leaders, &followers), vec![(0, 2), (2, 3), (3, 2)]);
    assert!(follow_pairs(&leaders, &Vec::new()).is_empty());
    assert!(follow_pairs(&Vec::new(), &followers).is_empty());
}

#[test]
fn keys_are_ordered_as_the_weights_are() {
    let weights: [f32; 11] = [
        f32::NEG_INFINITY,
        -1.0e30,
        -1.0,
        -0.25,
        -1.0e-40,
        0.0,
        1.0e-40,
        0.05,
        0.5,
        1.0,
        f32::INFINITY,
    ];
    for pair in weights.windows(2) {
        assert!(pair[0] < pair[1]);
        assert!(key(pair[0]) < key(pair[1]));
    }
    for w in weights {
        assert_eq!(f32::from_bits(bits_of_key(key(w))), w);
    }
    assert_eq!(key_of_bits(0), 0x8000_0000);
    assert_eq!(key_of_bits(0x8000_0000), 0x7fff_ffff);
    assert_eq!(key_of_bits(0x3f80_0000), 0xbf80_0000);
    assert_eq!(key_of_bits(0xbf80_0000), 0x407f_ffff);
    assert_eq!(bits_of_key(0xbf80_0000), 0x3f80_0000);
    assert_eq!(bits_of_key(0x407f_ffff), 0xbf80_0000);
    assert_eq!(bits_of_key(0), 0xffff_ffff);
    assert_eq!(bits_of_key(0xffff_ffff), 0x7fff_ffff);
}

#[test]
fn negative_weight_is_lighter_than_none() {
    let mut v = VertexInfluence::new();
    v.claim(0, key(0.0));
    v.claim(1, key(-0.5));
    v.claim(2, key(0.25));
    v.claim(3, key(0.125));
    assert_eq!(v.claim(4, key(0.0625)), ClaimOutcome::Evicted(1, inf(1, -0.5)));
    assert_eq!(v.claim(5, key(-1.0)), ClaimOutcome::Discarded);
}
