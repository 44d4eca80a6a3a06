use lib::{assign_clusters, shift_positions, StyleCluster};

fn distance(a: [f64; 4], b: [f64; 4]) -> f64 {
    a.iter().zip(b.iter()).map(|(x, y)| (x - y) * (x - y)).sum::<f64>().sqrt()
}

/// Which pairs of feature vectors lie within `threshold` of each other.
fn closeness(profiles: &[[f64; 4]], threshold: f64) -> Vec<Vec<bool>> {
    let n = profiles.len();
    let mut close = vec![vec![false; n]; n];
    for i in 0..n {
        for j in (i + 1)..n {
            let d = distance(profiles[i], profiles[j]) < threshold;
            close[i][j] = d;
            close[j][i] = d;
        }
    }
    close
}

#[test]
fn test_cluster_groups_similar_agents() {
    // Three agents with similar style, one with a very different one.
    let ids = ["agent-a", "agent-b", "agent-c", "agent-d"];
    let profiles = [
        [0.5, 0.3, 0.2, 0.7],
        [0.52, 0.31, 0.21, 0.69],
        [0.48, 0.29, 0.19, 0.71],
        [2.0, 1.5, 1.8, 0.1],
    ];

    let mut clusterer = StyleCluster::new();
    clusterer.fit(&ids, &closeness(&profiles, 0.5));

    assert_eq!(clusterer.len(), 2, "Should produce 2 clusters");

    let cluster_a = clusterer.find_cluster("agent-a");
    let cluster_b = clusterer.find_cluster("agent-b");
    let cluster_c = clusterer.find_cluster("agent-c");
    let cluster_d = clusterer.find_cluster("agent-d");

    assert_eq!(cluster_a, cluster_b, "a and b should be in same cluster");
    assert_eq!(cluster_a, cluster_c, "a and c should be in same cluster");
    assert_ne!(cluster_a, cluster_d, "a and d should be in different clusters");
}

#[test]
fn test_cluster_empty() {
    let mut clusterer = StyleCluster::new();
    clusterer.fit(&[], &Vec::new());
    assert!(clusterer.is_empty());
}

#[test]
fn test_find_cluster_none() {
    let clusterer = StyleCluster::new();
    assert_eq!(clusterer.find_cluster("nonexistent"), None);
}

#[test]
fn readme_cluster_example() {
    let ids = ["agent-a", "agent-b", "agent-c"];
    let profiles = [[0.5, 0.3, 0.2, 0.7], [0.52, 0.31, 0.21, 0.69], [2.0, 1.5, 1.8, 0.1]];
    let mut clusterer = StyleCluster::new();
    clusterer.fit(&ids, &closeness(&profiles, 0.5));
    assert_eq!(clusterer.find_cluster("agent-a"), clusterer.find_cluster("agent-b"));
    assert_ne!(clusterer.find_cluster("agent-a"), clusterer.find_cluster("agent-c"));
    assert_eq!(clusterer.find_cluster("agent-a"), Some("cluster_0"));
    assert_eq!(clusterer.find_cluster("agent-c"), Some("cluster_1"));
    assert_eq!(clusterer.cluster_labels(), vec!["cluster_0", "cluster_1"]);
    assert_eq!(clusterer.members("cluster_0"), vec!["agent-a", "agent-b"]);
    assert_eq!(clusterer.members("cluster_1"), vec!["agent-c"]);
    assert!(clusterer.members("cluster_2").is_empty());
    assert!(clusterer.members("cluster_01").is_empty());
    assert!(clusterer.members("nonsense").is_empty());
}

#[test]
fn assignment_joins_chains_of_close_pairs() {
    // 0 and 2 are close, 1 and 2 are close, 0 and 1 are not: the chain
    // 0 - 2 - 1 puts all three in one cluster.
    let close = vec![
        vec![false, false, true],
        vec![false, false, true],
        vec![true, true, false],
    ];
    assert_eq!(assign_clusters(&close), (vec![0, 0, 0], 1));

    // 0-1 and 1-2 close: a chain ends up in one cluster.
    let chain = vec![
        vec![false, true, false],
        vec![true, false, true],
        vec![false, true, false],
    ];
    assert_eq!(assign_clusters(&chain), (vec![0, 0, 0], 1));

    // nothing close: one cluster each.
    let apart = vec![vec![false; 3]; 3];
    assert_eq!(assign_clusters(&apart), (vec![0, 1, 2], 3));

    assert_eq!(assign_clusters(&Vec::new()), (vec![], 0));
}

#[test]
fn clusters_are_numbered_by_their_first_agent() {
    // 0-2 and 1-3 close: two interleaved clusters.
    let mut close = vec![vec![false; 4]; 4];
    close[0][2] = true;
    close[2][0] = true;
    close[1][3] = true;
    close[3][1] = true;
    assert_eq!(assign_clusters(&close), (vec![0, 1, 0, 1], 2));

    // a long chain found backwards: 4-3, 3-2, 2-1, 1-0 all close, 0 and 4 far.
    let n = 5;
    let mut chain = vec![vec![false; n]; n];
    for k in 0..n - 1 {
        chain[k][k + 1] = true;
        chain[k + 1][k] = true;
    }
    assert_eq!(assign_clusters(&chain), (vec![0; 5], 1));
}

#[test]
fn clustering_does_not_depend_on_agent_order() {
    // a-b and c-b are within 0.5, a-c is not; in either order all three
    // agents form one cluster.
    let a = [0.0, 0.0, 0.0, 0.0];
    let b = [0.4, 0.0, 0.0, 0.0];
    let c = [0.8, 0.0, 0.0, 0.0];
    for (ids, profiles) in [(["a", "b", "c"], [a, b, c]), (["a", "c", "b"], [a, c, b])] {
        let mut clusterer = StyleCluster::new();
        clusterer.fit(&ids, &closeness(&profiles, 0.5));
        assert_eq!(clusterer.len(), 1);
        assert_eq!(clusterer.find_cluster("a"), clusterer.find_cluster("b"));
        assert_eq!(clusterer.find_cluster("a"), clusterer.find_cluster("c"));
    }
}

#[test]
fn found_agent_is_member_of_its_cluster() {
    let ids = ["x", "y", "x", "z", "w"];
    // y-x(2) close, z-w close; nothing else
    let mut close = vec![vec![false; 5]; 5];
    close[1][2] = true;
    close[2][1] = true;
    close[3][4] = true;
    close[4][3] = true;
    let mut clusterer = StyleCluster::new();
    clusterer.fit(&ids, &close);
    // labels: 0, 1, 1, 2, 2
    assert_eq!(clusterer.len(), 3);
    // "x" is in clusters 0 and 1; the earliest is reported.
    assert_eq!(clusterer.find_cluster("x"), Some("cluster_0"));
    for id in ids {
        let label = clusterer.find_cluster(id).unwrap();
        assert!(clusterer.members(label).contains(&id));
    }
    assert_eq!(clusterer.members("cluster_1"), vec!["y", "x"]);
    assert_eq!(clusterer.find_cluster("v"), None);
    for label in clusterer.cluster_labels() {
        assert!(!clusterer.members(label).is_empty());
    }
}

#[test]
fn labels_of_many_clusters() {
    let n = 12;
    let ids: Vec<String> = (0..n).map(|i| format!("agent-{}", i)).collect();
    let refs: Vec<&str> = ids.iter().map(|s| s.as_str()).collect();
    let mut clusterer = StyleCluster::new();
    clusterer.fit(&refs, &vec![vec![false; n]; n]);
    assert_eq!(clusterer.len(), 12);
    assert_eq!(clusterer.find_cluster("agent-10"), Some("cluster_10"));
    assert_eq!(clusterer.members("cluster_11"), vec!["agent-11"]);
    // a new fit replaces the clusters
    clusterer.fit(&refs[..2], &vec![vec![true; 2]; 2]);
    assert_eq!(clusterer.len(), 1);
    assert_eq!(clusterer.find_cluster("agent-5"), None);
}

#[test]
fn test_evolution_detect_shifts() {
    let snapshots = [
        [0.5, 0.5, 0.5, 0.5],
        // gradual change
        [0.52, 0.51, 0.49, 0.5],
        // sudden shift
        [2.0, 1.5, 1.8, 0.1],
    ];
    let exceeds: Vec<bool> =
        snapshots.windows(2).map(|w| distance(w[0], w[1]) > 0.5).collect();
    let shifts = shift_positions(&exceeds);
    assert!(shifts.contains(&2), "Should detect shift at snapshot 2");
    assert_eq!(shifts, vec![2]);
}

#[test]
fn shift_positions_exact() {
    assert_eq!(shift_positions(&[]), Vec::<usize>::new());
    assert_eq!(shift_positions(&[true, false, true, true]), vec![1, 3, 4]);
    assert_eq!(shift_positions(&[false, false]), Vec::<usize>::new());
}
