use fsci_harness::cluster_golden::{
    golden_shapes, golden_text as cluster_golden_text, sweep_golden_text, ClusterGoldenCase,
    GOLDEN_DBSCAN_MIN_SAMPLES, GOLDEN_MAX_ITER, GOLDEN_SEED,
};
use fsci_harness::ivp_golden::{
    golden_text as ivp_golden_text, write_result, write_result_quoted, IvpSummary,
};

fn tiny_case() -> ClusterGoldenCase {
    ClusterGoldenCase {
        n: 2,
        d: 1,
        k: 1,
        vq_labels: vec![0, 1],
        vq_dist_bits: vec![0, 1.0f64.to_bits()],
        kmeans_n_iter: 3,
        kmeans_inertia_bits: 1,
        kmeans_labels: vec![0, 1],
        dbscan_n_clusters: 1,
        dbscan_labels: vec![0, -1],
        dbscan_core_indices: vec![0],
        kmedoids_n_iter: 2,
        kmedoids_inertia_bits: 0xabc,
        kmedoids_labels: vec![1, 0],
        silhouette_bits: vec![0x10],
    }
}

#[test]
fn cluster_golden_text_lines() {
    let text = cluster_golden_text(&[tiny_case()]);
    let want = [
        "mode=vq n=2 d=1 k=1 len=2 0:0000000000000000 1:3ff0000000000000 \n",
        "mode=kmeans n=2 d=1 k=1 n_iter=3 inertia=0000000000000001 0 1 \n",
        "mode=dbscan n=2 d=1 k=1 n_clusters=1 cores=1 0 -1 c0 \n",
        "mode=kmedoids n=2 d=1 k=1 n_iter=2 inertia=0000000000000abc 1 0 \n",
        "mode=silhouette-samples n=2 d=1 k=1 len=1 0000000000000010 \n",
    ]
    .join("");
    assert_eq!(text, want);
    assert_eq!(cluster_golden_text(&[]), "");
    let twice = cluster_golden_text(&[tiny_case(), tiny_case()]);
    assert_eq!(twice, format!("{want}{want}"));
}

#[test]
fn cluster_golden_vq_pairs_stop_at_the_shorter_list() {
    let mut c = tiny_case();
    c.vq_dist_bits = vec![7];
    let text = cluster_golden_text(&[c]);
    assert!(text.starts_with("mode=vq n=2 d=1 k=1 len=2 0:0000000000000007 \n"));
}

fn summary(status: i64, message: &str) -> IvpSummary {
    IvpSummary {
        status,
        success: status == 0,
        nfev: 10,
        njev: 2,
        nlu: 1,
        has_sol: false,
        has_t_events: true,
        has_y_events: false,
        message: message.to_string(),
        t_bits: vec![0, 10.0f64.to_bits()],
        y_bits: vec![vec![1.0f64.to_bits()], vec![0x3f00000000000000, 5]],
    }
}

#[test]
fn write_result_lines() {
    let mut out = String::from(">");
    write_result(&mut out, "lbl", &summary(0, "done"));
    assert_eq!(
        out,
        [
            ">case=lbl status=0 success=1 nfev=10 njev=2 nlu=1 sol=0 t_events=1 y_events=0 message=\"done\"\n",
            "t=0000000000000000,4024000000000000,\n",
            "y=[3ff0000000000000,][3f00000000000000,0000000000000005,]\n",
        ]
        .join("")
    );
}

#[test]
fn write_result_negative_status_and_escaped_message() {
    let mut out = String::new();
    write_result(&mut out, "x", &summary(-1, "say \"hi\"\n"));
    assert!(out.starts_with(
        "case=x status=-1 success=0 nfev=10 njev=2 nlu=1 sol=0 t_events=1 y_events=0 message=\"say \\\"hi\\\"\\n\"\n"
    ));
}

#[test]
fn ivp_golden_text_uses_fixed_labels_in_order() {
    let a = summary(0, "a");
    let b = summary(1, "b");
    let c = summary(-1, "c");
    let d = summary(0, "d");
    let text = ivp_golden_text(&a, &b, &c, &d);
    let mut want = String::new();
    write_result(&mut want, "exponential-rk45-no-output", &a);
    write_result(&mut want, "lorenz-rk45-no-output", &b);
    write_result(&mut want, "stiff64-bdf-no-output", &c);
    write_result(&mut want, "stiff32-radau-no-output", &d);
    assert_eq!(text, want);
    assert!(text.starts_with("case=exponential-rk45-no-output status=0"));
}

#[test]
fn write_result_quoted_writes_the_given_message_text() {
    let mut out = String::new();
    write_result_quoted(&mut out, "q", &summary(2, "ignored"), "<msg>");
    let want = [
        "case=q status=2 success=0 nfev=10 njev=2 nlu=1 sol=0 t_events=1 y_events=0 message=<msg>\n",
        "t=0000000000000000,4024000000000000,\n",
        "y=[3ff0000000000000,][3f00000000000000,0000000000000005,]\n",
    ]
    .join("");
    assert_eq!(out, want);
    let mut direct = String::new();
    write_result(&mut direct, "q", &summary(2, "m"));
    let mut via = String::new();
    write_result_quoted(&mut via, "q", &summary(2, "m"), "\"m\"");
    assert_eq!(direct, via);
}

#[test]
fn golden_sweep_shapes_and_settings() {
    assert_eq!(
        golden_shapes(),
        vec![(64, 8, 4), (128, 16, 8), (200, 32, 12), (300, 64, 16)]
    );
    assert_eq!(GOLDEN_SEED, 0x1234_5678);
    assert_eq!(GOLDEN_MAX_ITER, 50);
    assert_eq!(GOLDEN_DBSCAN_MIN_SAMPLES, 4);
}

#[test]
fn sweep_golden_text_checks_the_shapes() {
    let shaped = |(n, d, k): (usize, usize, usize)| {
        let mut c = tiny_case();
        c.n = n;
        c.d = d;
        c.k = k;
        c
    };
    let cases: Vec<ClusterGoldenCase> = golden_shapes().into_iter().map(shaped).collect();
    let text = sweep_golden_text(&cases).expect("sweep shapes");
    assert_eq!(text, cluster_golden_text(&cases));
    assert!(text.starts_with("mode=vq n=64 d=8 k=4 len=2 "));
    assert!(sweep_golden_text(&cases[..3]).is_none());
    let mut swapped: Vec<ClusterGoldenCase> = golden_shapes().into_iter().map(shaped).collect();
    swapped.swap(0, 1);
    assert!(sweep_golden_text(&swapped).is_none());
    assert!(sweep_golden_text(&[tiny_case()]).is_none());
}

#[test]
fn write_result_bit_lines_decode_back() {
    let s = summary(0, "ok");
    let mut out = String::new();
    write_result(&mut out, "d", &s);
    let lines: Vec<&str> = out.lines().collect();
    let t: Vec<u64> = lines[1]
        .strip_prefix("t=")
        .unwrap()
        .split_terminator(',')
        .map(|w| u64::from_str_radix(w, 16).unwrap())
        .collect();
    assert_eq!(t, s.t_bits);
    let y: Vec<Vec<u64>> = lines[2]
        .strip_prefix("y=")
        .unwrap()
        .split_terminator(']')
        .map(|row| {
            row.strip_prefix('[')
                .unwrap()
                .split_terminator(',')
                .map(|w| u64::from_str_radix(w, 16).unwrap())
                .collect()
        })
        .collect();
    assert_eq!(y, s.y_bits);
    assert_eq!(f64::from_bits(t[1]), 10.0);
}
