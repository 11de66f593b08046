use mining_techniques::MiningError;
use mining_techniques::coords::Direction;
use mining_techniques::geometry::branch;
use mining_techniques::geometry::poke;
use mining_techniques::geometry::shaft;
use mining_techniques::geometry::shaft_end;
use mining_techniques::lookup::CachingLookup;
use mining_techniques::pokes::branch_mining_with_poke_holes;
use mining_techniques::techniques::Technique;
use mining_techniques::techniques::branch_mining;
use mining_techniques::techniques::chunk_baseline;
use mining_techniques::techniques::expand_corridor;
use mining_techniques::world::ChunkData;
use mining_techniques::world::InMemoryShard;

fn void_lookup() -> CachingLookup<InMemoryShard> {
    // identities do not affect the counters, so an all-void shard serves
    CachingLookup::new(InMemoryShard::new())
}

#[test]
fn shaft_counts_two_excavated_four_exposed_per_step() {
    let mut lookup = void_lookup();
    let r = shaft(&mut lookup, Direction::East, (100, 64, 100), 7);
    assert_eq!(r.samples.len(), 14);
    assert_eq!(r.excavated, 14);
    assert_eq!(r.exposed, 28);
}

#[test]
fn shaft_end_counts_only_two_exposed_faces() {
    let mut lookup = void_lookup();
    let r = shaft_end(&mut lookup, Direction::East, (100, 64, 100));
    assert_eq!(r.samples.len(), 2);
    assert_eq!(r.excavated, 0);
    assert_eq!(r.exposed, 2);
    assert_eq!(r.samples[0].position, (101, 64, 100));
    assert_eq!(r.samples[1].position, (101, 65, 100));
}

#[test]
fn poke_counts_one_excavated_three_exposed_per_block() {
    let mut lookup = void_lookup();
    let r = poke(&mut lookup, Direction::North, (100, 64, 100), 5);
    assert_eq!(r.samples.len(), 5);
    assert_eq!(r.excavated, 5);
    assert_eq!(r.exposed, 15);
    assert_eq!(r.samples[0].position, (100, 64, 99));
    assert_eq!(r.samples[4].position, (100, 64, 95));
}

#[test]
fn branch_never_resamples_its_cap() {
    let mut lookup = void_lookup();
    let r = branch(&mut lookup, 5, Direction::North, (100, 64, 100));
    assert_eq!(r.samples.len(), 12);
    assert_eq!(r.excavated, 10);
    assert_eq!(r.exposed, 22);
    // the cap's two samples address a column no body sample touches
    let (body, cap) = r.samples.split_at(10);
    for b in body {
        for c in cap {
            assert_ne!(b.position, c.position);
        }
    }
}

#[test]
fn expand_corridor_fixed_contribution_at_boundary_spacings() {
    // spacing 2 gives a negative remaining span, spacing 3 an empty one:
    // both contribute exactly the fixed +24 excavated / +48 exposed.
    let mut lookup = void_lookup();
    let r2 = expand_corridor(&mut lookup, Direction::East, 2, (100, 64, 100));
    assert_eq!((r2.excavated, r2.exposed), (24, 48));
    assert_eq!(r2.samples.len(), 12);
    // at spacing 2 the "after" and "before next junction" slices coincide
    // and are sampled (and counted) twice within this one call
    assert_eq!(r2.samples[1].position, r2.samples[2].position);
    let r3 = expand_corridor(&mut lookup, Direction::East, 3, (200, 64, 200));
    assert_eq!((r3.excavated, r3.exposed), (24, 48));
}

#[test]
fn expand_corridor_adds_the_remaining_span() {
    let mut lookup = void_lookup();
    let r = expand_corridor(&mut lookup, Direction::East, 4, (100, 64, 100));
    // +24/+48 fixed, plus a 1-step shaft over the remaining span
    assert_eq!((r.excavated, r.exposed), (26, 52));
    assert_eq!(r.samples.len(), 14);
}

#[test]
fn branch_mining_rejects_tight_spacing_before_any_lookup() {
    let mut lookup = void_lookup();
    let r = branch_mining(&mut lookup, Direction::East, (100, 64, 100), 1, 5, 1);
    assert!(matches!(r, Err(MiningError::InvalidParameter)));
    assert_eq!(lookup.decode_count(), 0);
}

#[test]
fn branch_mining_rejects_non_positive_parameters() {
    let mut lookup = void_lookup();
    let r = branch_mining(&mut lookup, Direction::East, (100, 64, 100), 0, 5, 4);
    assert!(matches!(r, Err(MiningError::InvalidParameter)));
    let r = branch_mining(&mut lookup, Direction::East, (100, 64, 100), 1, 0, 4);
    assert!(matches!(r, Err(MiningError::InvalidParameter)));
    assert_eq!(lookup.decode_count(), 0);
}

#[test]
fn branch_mining_rejects_layouts_leaving_the_shard() {
    let mut lookup = void_lookup();
    // branches of length 5 reach 6 columns sideways: z = 2 - 6 < 0
    let r = branch_mining(&mut lookup, Direction::East, (2, 64, 2), 1, 5, 4);
    assert!(matches!(r, Err(MiningError::OutOfRange)));
    assert_eq!(lookup.decode_count(), 0);
}

#[test]
fn single_pair_is_twice_one_branch() {
    // pair_count = 1 issues exactly the two symmetric branch calls and no
    // corridor expansion.
    let mut lookup = void_lookup();
    let r = branch_mining(&mut lookup, Direction::East, (100, 64, 100), 1, 5, 4).unwrap();
    let mut single = CachingLookup::new(InMemoryShard::new());
    let b = branch(&mut single, 5, Direction::North, (100, 64, 99));
    assert_eq!(r.excavated, 2 * b.excavated);
    assert_eq!(r.exposed, 2 * b.exposed);
    assert_eq!(r.samples.len(), 2 * b.samples.len());
    assert_eq!((r.excavated, r.exposed), (20, 44));
}

#[test]
fn three_pairs_sum_the_closed_form() {
    // pair_count = 3: the initial pair, then 2 corridor expansions each
    // followed by one further pair — 6 branch calls and 2 corridor calls.
    let mut lookup = void_lookup();
    let r = branch_mining(&mut lookup, Direction::East, (100, 64, 100), 3, 5, 4).unwrap();
    // 3 pairs * 20 excavated + 2 corridors * 26
    assert_eq!(r.excavated, 3 * 20 + 2 * 26);
    // 3 pairs * 44 exposed + 2 corridors * 52
    assert_eq!(r.exposed, 3 * 44 + 2 * 52);
    assert_eq!(r.samples.len(), 3 * 24 + 2 * 14);
}

#[test]
fn branch_mining_is_deterministic() {
    let mut l1 = void_lookup();
    let mut l2 = void_lookup();
    let r1 = branch_mining(&mut l1, Direction::South, (50, 30, 50), 2, 4, 3).unwrap();
    let r2 = branch_mining(&mut l2, Direction::South, (50, 30, 50), 2, 4, 3).unwrap();
    assert_eq!(r1.excavated, r2.excavated);
    assert_eq!(r1.exposed, r2.exposed);
    assert_eq!(r1.samples.len(), r2.samples.len());
    for (a, b) in r1.samples.iter().zip(r2.samples.iter()) {
        assert_eq!(a.position, b.position);
        assert_eq!(a.identity, b.identity);
    }
}

#[test]
fn branch_mining_samples_read_the_world() {
    let stone = String::from("stone");
    let mut chunk = ChunkData::filled(0, 128, &stone);
    // the first branch's first body block sits at (100, 64, 99)
    chunk.set_ident(4, 3, 64, String::from("gold_ore"));
    let mut shard = InMemoryShard::new();
    shard.set_chunk(6, 6, chunk);
    let mut lookup = CachingLookup::new(shard);
    let r = branch_mining(&mut lookup, Direction::East, (100, 64, 100), 1, 5, 4).unwrap();
    assert!(
        r.samples
            .iter()
            .any(|s| s.position == (100, 64, 99) && s.identity == "gold_ore")
    );
    assert!(r.samples.iter().all(|s| s.position == (100, 64, 99) || s.identity != "gold_ore"));
}

#[test]
fn poke_holes_reject_bad_parameters() {
    let mut lookup = void_lookup();
    let r = branch_mining_with_poke_holes(
        &mut lookup,
        Direction::East,
        (100, 64, 100),
        1,
        2,
        3,
        1,
    );
    assert!(matches!(r, Err(MiningError::InvalidParameter)));
    let r = branch_mining_with_poke_holes(
        &mut lookup,
        Direction::East,
        (100, 64, 100),
        1,
        0,
        3,
        2,
    );
    assert!(matches!(r, Err(MiningError::InvalidParameter)));
    assert_eq!(lookup.decode_count(), 0);
}

#[test]
fn poke_holes_single_pair_counters() {
    let mut lookup = void_lookup();
    let r = branch_mining_with_poke_holes(
        &mut lookup,
        Direction::East,
        (100, 64, 100),
        1,
        2,
        3,
        2,
    )
    .unwrap();
    // one poke branch: 2 anchors * 2 pokes * (5 excavated / 15 exposed),
    // plus a 6-block body (12/24) and its cap (0/2); two such branches.
    assert_eq!(r.excavated, 2 * (20 + 12));
    assert_eq!(r.exposed, 2 * (60 + 26));
}

#[test]
fn poke_holes_are_deterministic() {
    let make = || {
        let mut shard = InMemoryShard::new();
        let stone = String::from("stone");
        shard.set_chunk(6, 6, ChunkData::filled(0, 128, &stone));
        CachingLookup::new(shard)
    };
    let mut l1 = make();
    let mut l2 = make();
    let args = (Direction::West, (200, 40, 200));
    let r1 = branch_mining_with_poke_holes(&mut l1, args.0, args.1, 2, 2, 4, 3).unwrap();
    let r2 = branch_mining_with_poke_holes(&mut l2, args.0, args.1, 2, 2, 4, 3).unwrap();
    assert_eq!(r1.excavated, r2.excavated);
    assert_eq!(r1.exposed, r2.exposed);
    assert_eq!(r1.samples.len(), r2.samples.len());
    for (a, b) in r1.samples.iter().zip(r2.samples.iter()) {
        assert_eq!(a.position, b.position);
        assert_eq!(a.identity, b.identity);
    }
}

#[test]
fn technique_names_and_labels_are_distinct_vocabularies() {
    assert_eq!(Technique::Branch.name(), "branch");
    assert_eq!(Technique::BranchWithPoke.name(), "poke");
    assert_eq!(Technique::ChunkBaseline.name(), "chunk");
    assert_eq!(Technique::Branch.display_label(), "Branch Mining");
    assert_eq!(
        Technique::BranchWithPoke.display_label(),
        "Branch Mining with Pokes"
    );
    assert_eq!(Technique::ChunkBaseline.display_label(), "Chunk Baseline");
}

#[test]
fn parse_label_round_trips_every_technique() {
    for t in [
        Technique::Branch,
        Technique::BranchWithPoke,
        Technique::ChunkBaseline,
    ] {
        assert_eq!(Technique::parse_label(&t.clone().display_label()), Ok(t));
    }
}

#[test]
fn parse_label_rejects_unknown_and_canonical_names() {
    assert_eq!(
        Technique::parse_label(&String::from("strip mining")),
        Err(MiningError::UnknownTechnique)
    );
    // canonical names are not display labels
    assert_eq!(
        Technique::parse_label(&String::from("branch")),
        Err(MiningError::UnknownTechnique)
    );
}

#[test]
fn iterable_lists_every_display_label() {
    let labels = Technique::iterable();
    assert_eq!(labels.len(), 3);
    assert_eq!(labels[0], "Branch Mining");
    assert_eq!(labels[1], "Branch Mining with Pokes");
    assert_eq!(labels[2], "Chunk Baseline");
}

#[test]
fn chunk_baseline_reads_the_whole_slice() {
    let stone = String::from("stone");
    let mut chunk = ChunkData::filled(0, 64, &stone);
    chunk.set_ident(7, 9, 40, String::from("iron_ore"));
    let idents = chunk_baseline(&chunk, 40);
    assert_eq!(idents.len(), 256);
    // z-major order: index z * 16 + x
    assert_eq!(idents[9 * 16 + 7], "iron_ore");
    assert_eq!(idents[0], "stone");
    let baseline_above = chunk_baseline(&chunk, 64);
    assert!(baseline_above.iter().all(|i| i == "void"));
}
