use chunking::chunking::{chunk_size, make_chunks, ChunkPlan, ChunkSize, ChunkUnit, LARGE_CHUNK, SMALL_CHUNK};

const S: usize = 10_000;
const M: usize = 100_000;

fn unit(kind: usize, ident: &str, size: usize) -> ChunkUnit {
    ChunkUnit { kind, ident: ident.to_string(), size }
}

fn names(list: &[&str]) -> Vec<String> {
    list.iter().map(|s| s.to_string()).collect()
}

fn keys(chunks: &[ChunkPlan]) -> Vec<String> {
    chunks.iter().map(|c| c.key.clone()).collect()
}

fn assert_partition(units: &[ChunkUnit], chunks: &[ChunkPlan]) {
    let mut seen = vec![0usize; units.len()];
    for c in chunks {
        for &m in &c.members {
            seen[m] += 1;
            assert_eq!(units[m].kind, c.kind);
        }
    }
    assert!(seen.iter().all(|&n| n == 1));
    for (i, c) in chunks.iter().enumerate() {
        assert_eq!(c.side_refs, i == 0);
    }
}

#[test]
fn perfect_fit_is_one_app_chunk() {
    let units = vec![unit(0, "src/a.js", M), unit(0, "src/b.js", M)];
    let chunks = make_chunks(&units, &names(&["K"]), "prefix");
    assert_eq!(keys(&chunks), vec!["prefixK-app"]);
    assert_eq!(chunks[0].members, vec![0, 1]);
    assert!(chunks[0].side_refs);
    assert_partition(&units, &chunks);
}

#[test]
fn small_app_and_vendor_merge_under_outer_name() {
    let units = vec![
        unit(0, "src/a.js", S / 4),
        unit(0, "project/node_modules/x/index.js", S / 2),
        unit(0, "src/b.js", S / 4),
    ];
    let chunks = make_chunks(&units, &names(&["K"]), "prefix");
    assert_eq!(keys(&chunks), vec!["prefixK"]);
    assert_eq!(chunks[0].members, vec![0, 2, 1]);
    assert_partition(&units, &chunks);
}

#[test]
fn large_vendors_split_by_package() {
    let units = vec![
        unit(0, "project/node_modules/a/one.js", 50_000),
        unit(0, "project/node_modules/b/one.js", 50_000),
        unit(0, "project/node_modules/a/two.js", 50_000),
        unit(0, "project/node_modules/b/two.js", 50_000),
        unit(0, "project/node_modules/a/three.js", 50_000),
        unit(0, "project/node_modules/b/three.js", 50_000),
    ];
    let chunks = make_chunks(&units, &names(&["K"]), "prefix");
    assert_eq!(keys(&chunks), vec!["prefixK-vendors-a", "prefixK-vendors-b"]);
    assert_eq!(chunks[0].members, vec![0, 2, 4]);
    assert_eq!(chunks[1].members, vec![1, 3, 5]);
    assert_partition(&units, &chunks);
}

#[test]
fn large_package_split_by_folder() {
    let mut units = Vec::new();
    for dir in ["x", "y", "z"] {
        for file in ["f1.js", "f2.js"] {
            units.push(unit(0, &format!("project/node_modules/big/{dir}/{file}"), M / 2));
        }
    }
    let chunks = make_chunks(&units, &names(&["K"]), "prefix");
    assert_eq!(
        keys(&chunks),
        vec![
            "prefixK-vendors-big-project/node_modules/big/x/",
            "prefixK-vendors-big-project/node_modules/big/y/",
            "prefixK-vendors-big-project/node_modules/big/z/",
        ]
    );
    assert_eq!(chunks[1].members, vec![2, 3]);
    assert_partition(&units, &chunks);
}

#[test]
fn single_folder_chain_branches_at_files() {
    let units: Vec<ChunkUnit> =
        (0..10).map(|i| unit(0, &format!("src/app/pages/home/f{i}.js"), 40_000)).collect();
    let chunks = make_chunks(&units, &names(&["K"]), "prefix");
    assert_eq!(chunks.len(), 10);
    assert_eq!(chunks[3].key, "prefixK-app-src/app/pages/home/f3.js");
    assert_eq!(chunks[3].members, vec![3]);
    assert_partition(&units, &chunks);
}

#[test]
fn single_oversize_file_is_emitted_whole() {
    let units = vec![unit(0, "src/app/pages/home/index.js", 400_000)];
    let chunks = make_chunks(&units, &names(&["K"]), "prefix");
    assert_eq!(keys(&chunks), vec!["prefixK-app-src/app/pages/home/index.js"]);
    assert_partition(&units, &chunks);
}

#[test]
fn kinds_never_mix_and_keep_first_appearance_order() {
    let units = vec![
        unit(1, "src/a.css", 50_000),
        unit(0, "src/a.js", 50_000),
        unit(1, "src/b.css", 50_000),
        unit(0, "src/b.js", 50_000),
    ];
    let chunks = make_chunks(&units, &names(&["JS", "CSS"]), "p-");
    assert_eq!(keys(&chunks), vec!["p-CSS-app", "p-JS-app"]);
    assert_eq!(chunks[0].kind, 1);
    assert_eq!(chunks[0].members, vec![0, 2]);
    assert_eq!(chunks[1].kind, 0);
    assert_eq!(chunks[1].members, vec![1, 3]);
    assert_partition(&units, &chunks);
}

#[test]
fn small_folders_gather_under_common_prefix() {
    let units = vec![
        unit(0, "src/a/one.js", 140_000),
        unit(0, "src/b/one.js", 10_000),
        unit(0, "src/a/two.js", 140_000),
        unit(0, "src/c/one.js", 15_000),
    ];
    let chunks = make_chunks(&units, &names(&["K"]), "prefix");
    assert_eq!(keys(&chunks), vec!["prefixK-app-src/a/", "prefixK-app-src/"]);
    assert_eq!(chunks[0].members, vec![0, 2]);
    assert_eq!(chunks[1].members, vec![1, 3]);
    assert_partition(&units, &chunks);
}

#[test]
fn large_file_among_folders_is_emitted_whole() {
    let units = vec![unit(0, "src/big.js", 350_000), unit(0, "src/x.js", 1_000)];
    let chunks = make_chunks(&units, &names(&["K"]), "prefix");
    assert_eq!(keys(&chunks), vec!["prefixK-app-src/big.js", "prefixK-app-src/"]);
    assert_partition(&units, &chunks);
}

#[test]
fn empty_input_gives_no_chunks() {
    let chunks = make_chunks(&Vec::new(), &names(&["K"]), "prefix");
    assert!(chunks.is_empty());
}

#[test]
fn same_input_gives_same_chunks() {
    let units = vec![
        unit(0, "src/a/one.js", 140_000),
        unit(1, "project/node_modules/q/x.js", 200_000),
        unit(0, "src/b/one.js", 10_000),
        unit(1, "project/node_modules/r/y.js", 200_000),
        unit(0, "src/a/two.js", 140_000),
    ];
    let kinds = names(&["JS", "CSS"]);
    let first = make_chunks(&units, &kinds, "p");
    let second = make_chunks(&units, &kinds, "p");
    assert_eq!(first.len(), second.len());
    for (a, b) in first.iter().zip(second.iter()) {
        assert_eq!(a.key, b.key);
        assert_eq!(a.kind, b.kind);
        assert_eq!(a.members, b.members);
        assert_eq!(a.side_refs, b.side_refs);
    }
    assert_partition(&units, &first);
}

#[test]
fn size_classes_at_the_thresholds() {
    let units = vec![unit(0, "a", LARGE_CHUNK - 1), unit(0, "b", 1), unit(0, "c", SMALL_CHUNK), unit(0, "d", usize::MAX)];
    assert_eq!(chunk_size(&units, &vec![0]), ChunkSize::Perfect);
    assert_eq!(chunk_size(&units, &vec![0, 1]), ChunkSize::Large);
    assert_eq!(chunk_size(&units, &vec![2]), ChunkSize::Small);
    assert_eq!(chunk_size(&units, &vec![2, 1]), ChunkSize::Perfect);
    assert_eq!(chunk_size(&units, &vec![]), ChunkSize::Small);
    assert_eq!(chunk_size(&units, &vec![3, 3]), ChunkSize::Large);
}

#[test]
fn folder_catch_all_may_exceed_the_large_bound() {
    let units: Vec<ChunkUnit> = (0..11).map(|i| unit(0, &format!("src/d{i}/f.js"), 29_000)).collect();
    let chunks = make_chunks(&units, &names(&["K"]), "prefix");
    assert_eq!(keys(&chunks), vec!["prefixK-app-src/"]);
    assert_eq!(chunks[0].members, (0..11).collect::<Vec<usize>>());
    assert_partition(&units, &chunks);
}

#[test]
fn small_packages_gather_and_split_by_folder() {
    let mut units = vec![unit(0, "src/a.js", 20_000)];
    for i in 0..16 {
        units.push(unit(0, &format!("project/node_modules/p{i}/index.js"), 20_000));
    }
    let chunks = make_chunks(&units, &names(&["K"]), "prefix");
    assert_eq!(keys(&chunks), vec!["prefixK-vendors-project/node_modules/", "prefixK"]);
    assert_eq!(chunks[0].members, (1..17).collect::<Vec<usize>>());
    assert_eq!(chunks[1].members, vec![0]);
    assert_partition(&units, &chunks);
}
