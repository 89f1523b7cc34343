use std::collections::hash_map::DefaultHasher;
use std::f64::consts::PI;
use std::hash::{Hash, Hasher};

use jetty::cluster::geom::ClusterGeom;
use jetty::cluster::geom_tile::ClusterGeomTile;
use jetty::cluster::history::{jets, remaining_steps};
use jetty::cluster::naive::ClusterNaive;
use jetty::{
    cluster, cluster_if, Cluster, ClusterHist, ClusterHistory, ClusterStep, Distance, PseudoJet,
    Scalar,
};
use noisy_float::prelude::{n64, Float, N64};

fn scalar(x: N64) -> Scalar {
    Scalar::from_bits(f64::from(x).to_bits()).unwrap()
}

fn number(s: Scalar) -> N64 {
    n64(f64::from_bits(s.to_bits()))
}

fn pseudojet(e: N64, px: N64, py: N64, pz: N64) -> PseudoJet {
    let pt2 = px * px + py * py;
    let inv_pt2 = n64(1.) / pt2;
    let mut phi = if pt2 > 0. { py.atan2(px) } else { n64(0.) };
    if phi < 0. {
        phi += n64(2.) * PI;
    }
    if phi >= n64(2.) * PI {
        phi -= n64(2.) * PI;
    }
    if phi == 0. {
        phi = n64(0.);
    }
    let rap = if e == 0. && pz == 0. {
        n64(0.)
    } else {
        ((e + pz) / (e - pz)).ln() / 2.
    };
    PseudoJet::from_parts(
        scalar(e),
        scalar(px),
        scalar(py),
        scalar(pz),
        scalar(inv_pt2),
        scalar(phi),
        scalar(rap),
    )
    .unwrap()
}

fn pseudojet_f(e: f64, px: f64, py: f64, pz: f64) -> PseudoJet {
    pseudojet(n64(e), n64(px), n64(py), n64(pz))
}

fn pt2(p: &PseudoJet) -> N64 {
    n64(1.) / number(p.inv_pt2())
}

fn delta_phi(p: &PseudoJet, q: &PseudoJet) -> N64 {
    let mut dphi = number(p.phi()) - number(q.phi());
    if dphi > PI {
        dphi -= 2. * PI;
    } else if dphi <= -PI {
        dphi += 2. * PI;
    }
    dphi
}

fn delta_phi_abs(p: &PseudoJet, q: &PseudoJet) -> N64 {
    let mut abs_dphi = (number(p.phi()) - number(q.phi())).abs();
    if abs_dphi > PI {
        abs_dphi = n64(2. * PI - f64::from(abs_dphi));
    }
    abs_dphi
}

fn delta_r2(p: &PseudoJet, q: &PseudoJet) -> N64 {
    let dphi = delta_phi_abs(p, q);
    let drap = number(p.rap()) - number(q.rap());
    dphi * dphi + drap * drap
}

fn plus(p: &PseudoJet, q: &PseudoJet) -> PseudoJet {
    pseudojet(
        number(p.e()) + number(q.e()),
        number(p.px()) + number(q.px()),
        number(p.py()) + number(q.py()),
        number(p.pz()) + number(q.pz()),
    )
}

#[derive(Clone, Copy)]
struct AntiKt {
    r2: N64,
}

fn anti_kt_f(r: f64) -> AntiKt {
    AntiKt { r2: n64(r) * n64(r) }
}

impl Distance for AntiKt {
    fn distance(&self, p1: &PseudoJet, p2: &PseudoJet) -> Scalar {
        let coef = number(p1.inv_pt2()).min(number(p2.inv_pt2()));
        scalar(coef * delta_r2(p1, p2) / self.r2)
    }

    fn beam_distance(&self, p1: &PseudoJet) -> Scalar {
        p1.inv_pt2()
    }

    fn delta_r2(&self, p1: &PseudoJet, p2: &PseudoJet) -> Scalar {
        scalar(delta_r2(p1, p2))
    }

    fn combine(&self, p1: &PseudoJet, p2: &PseudoJet) -> PseudoJet {
        plus(p1, p2)
    }
}

#[derive(Clone, Copy)]
struct Kt {
    r2: N64,
}

fn kt_f(r: f64) -> Kt {
    Kt { r2: n64(r) * n64(r) }
}

impl Distance for Kt {
    fn distance(&self, p1: &PseudoJet, p2: &PseudoJet) -> Scalar {
        scalar(pt2(p1).min(pt2(p2)) * delta_r2(p1, p2) / self.r2)
    }

    fn beam_distance(&self, p1: &PseudoJet) -> Scalar {
        scalar(pt2(p1))
    }

    fn delta_r2(&self, p1: &PseudoJet, p2: &PseudoJet) -> Scalar {
        scalar(delta_r2(p1, p2))
    }

    fn combine(&self, p1: &PseudoJet, p2: &PseudoJet) -> PseudoJet {
        plus(p1, p2)
    }
}

#[derive(Clone, Copy)]
struct CambridgeAachen {
    r2: N64,
}

fn cambridge_aachen_f(r: f64) -> CambridgeAachen {
    CambridgeAachen { r2: n64(r) * n64(r) }
}

impl Distance for CambridgeAachen {
    fn distance(&self, p1: &PseudoJet, p2: &PseudoJet) -> Scalar {
        scalar(delta_r2(p1, p2) / self.r2)
    }

    fn beam_distance(&self, _p1: &PseudoJet) -> Scalar {
        Scalar::one()
    }

    fn delta_r2(&self, p1: &PseudoJet, p2: &PseudoJet) -> Scalar {
        scalar(delta_r2(p1, p2))
    }

    fn combine(&self, p1: &PseudoJet, p2: &PseudoJet) -> PseudoJet {
        plus(p1, p2)
    }
}

#[derive(Clone, Copy)]
struct GenKt {
    r2: N64,
    p: N64,
}

fn gen_kt_f(r: f64, p: f64) -> GenKt {
    GenKt { r2: n64(r) * n64(r), p: n64(p) }
}

impl Distance for GenKt {
    fn distance(&self, p1: &PseudoJet, p2: &PseudoJet) -> Scalar {
        let coef = pt2(p1).powf(self.p).min(pt2(p2).powf(self.p));
        scalar(coef * delta_r2(p1, p2) / self.r2)
    }

    fn beam_distance(&self, p1: &PseudoJet) -> Scalar {
        scalar(pt2(p1).powf(self.p))
    }

    fn delta_r2(&self, p1: &PseudoJet, p2: &PseudoJet) -> Scalar {
        scalar(delta_r2(p1, p2))
    }

    fn combine(&self, p1: &PseudoJet, p2: &PseudoJet) -> PseudoJet {
        plus(p1, p2)
    }
}

/// Partons whose energy and momentum components are whole numbers, so that
/// sums of them are exact in any order.
fn whole(n: usize) -> Vec<PseudoJet> {
    let mut state: u64 = 0x9E37_79B9_7F4A_7C15;
    let mut next = move || {
        state ^= state << 13;
        state ^= state >> 7;
        state ^= state << 17;
        ((state >> 40) % 41) as f64 - 20.
    };
    let mut partons = Vec::new();
    while partons.len() < n {
        let (px, py, pz) = (next(), next(), next());
        if px == 0. && py == 0. {
            continue;
        }
        let e = (px * px + py * py + pz * pz).sqrt().ceil() + 1.;
        partons.push(pseudojet_f(e, px, py, pz));
    }
    partons
}

fn history<H: ClusterHist>(mut hist: H) -> Vec<ClusterStep> {
    let mut steps = Vec::new();
    while let Some(step) = hist.next() {
        steps.push(step);
    }
    assert_eq!(hist.next(), None);
    steps
}

fn n_jets(steps: &[ClusterStep]) -> usize {
    steps.iter().filter(|s| s.is_jet()).count()
}

fn hash_of(step: &ClusterStep) -> u64 {
    let mut hasher = DefaultHasher::new();
    step.hash(&mut hasher);
    hasher.finish()
}

/// Partons spread over the detector, from a fixed sequence of numbers.
fn spread(n: usize) -> Vec<PseudoJet> {
    let mut state: u64 = 0x2545_F491_4F6C_DD1D;
    let mut next = move || {
        state ^= state << 13;
        state ^= state >> 7;
        state ^= state << 17;
        (state >> 11) as f64 / (1u64 << 53) as f64
    };
    let mut partons = Vec::new();
    for _ in 0..n {
        let pt = 0.5 + 50. * next();
        let phi = 2. * PI * next();
        let rap = -4.5 + 9. * next();
        let mass = 0.1 + next();
        let mt = (pt * pt + mass * mass).sqrt();
        partons.push(pseudojet_f(
            mt * rap.cosh(),
            pt * phi.cos(),
            pt * phi.sin(),
            mt * rap.sinh(),
        ));
    }
    partons
}

fn partons_9_to_7() -> Vec<PseudoJet> {
    vec![
        pseudojet_f(
            69.26839536506921,
            2.523788521334493,
            3.311656952663986,
            -69.14314149775808,
        ),
        pseudojet_f(
            2.292439531535948,
            1.678009926288044,
            -0.01258571588949442,
            1.561858922116857,
        ),
        pseudojet_f(
            3.289626669238658,
            0.7015436852248482,
            -1.673170474700709,
            -2.744081019808675,
        ),
        pseudojet_f(
            211.8446186434034,
            -1.500613625861779,
            -1.145111454447386,
            -211.8362087242677,
        ),
        pseudojet_f(
            36.19723806801562,
            1.307180544524667,
            0.1299048201403605,
            -36.17339419399588,
        ),
        pseudojet_f(
            1321.648751509191,
            -0.9834513292440703,
            2.690421552193925,
            -1321.645647222113,
        ),
        pseudojet_f(
            614.6463548568801,
            -0.9800167457297735,
            1.332258289303498,
            -614.6441297156254,
        ),
        pseudojet_f(
            84.89137294427485,
            -0.6700938500184943,
            -0.3903008019701275,
            -84.88783092929236,
        ),
        pseudojet_f(
            323.1911878589112,
            3.631300879389308,
            -0.9682072466926734,
            -323.1693366306664,
        ),
    ]
}

fn partons_4_to_4() -> Vec<PseudoJet> {
    vec![
        pseudojet_f(
            6.918281417330659,
            0.0921329982846809,
            -1.37262399277452,
            -6.78012040117026,
        ),
        pseudojet_f(
            14.08869844306916,
            -2.416716165822407,
            -3.598378480403583,
            13.40531906018502,
        ),
        pseudojet_f(
            10.58285213260104,
            -0.1240036336102471,
            -0.7792325830056485,
            10.55339655944626,
        ),
        pseudojet_f(
            1.512949203734659,
            0.4907951919308299,
            -0.3455630061912586,
            1.388784209807401,
        ),
    ]
}

fn partons_2_to_1() -> Vec<PseudoJet> {
    vec![
        pseudojet_f(
            0.2626773221934335,
            -0.08809521946454194,
            -0.1141608706693822,
            -0.2195584284654444,
        ),
        pseudojet_f(
            2.21902459329915,
            -0.7529973704809976,
            -0.9658189214109036,
            -1.850475321845671,
        ),
    ]
}

fn partons_3_to_2() -> Vec<PseudoJet> {
    vec![
        pseudojet_f(
            48.32406329129799,
            -3.576937946768497,
            0.1029621819467338,
            -48.1913893418257,
        ),
        pseudojet_f(
            90.45021831804598,
            -6.668149504968421,
            2.750224246879194,
            -90.16215415879022,
        ),
        pseudojet_f(
            8.331785929751781,
            1.154124013760492,
            1.428371653463948,
            -8.126894176723383,
        ),
    ]
}

fn partons_8_to_7() -> Vec<PseudoJet> {
    vec![
        pseudojet_f(
            55.0566721275858,
            2.853555315376817,
            -0.2177619033434216,
            -54.98224211124915,
        ),
        pseudojet_f(
            6.22300156243039,
            1.897786377727834,
            3.878240628357652,
            -4.481451209047378,
        ),
        pseudojet_f(
            34.72698340289853,
            -1.789702417265187,
            -0.8624446512551973,
            34.67011004808532,
        ),
        pseudojet_f(
            0.2482353087299138,
            0.1606423482788706,
            0.09154657065594995,
            0.1656322125698495,
        ),
        pseudojet_f(
            4.49341017269029,
            1.186315084968943,
            2.123673434575869,
            -3.778015701726003,
        ),
        pseudojet_f(
            12.33218634443971,
            0.8398185974883793,
            -0.8370639741138476,
            -12.27504984350526,
        ),
        pseudojet_f(
            11.04475618445089,
            -1.016498045091359,
            -0.9891379652313798,
            -10.95330895136394,
        ),
        pseudojet_f(
            3.689996497465931,
            2.126537512149597,
            0.3956733858199553,
            -2.989540923366796,
        ),
    ]
}

fn compare_engines<D: Distance + Copy>(partons: Vec<PseudoJet>, d: D) -> Vec<ClusterStep> {
    let naive = history(ClusterNaive::new(partons.clone(), d));
    let geom = history(ClusterGeom::new(partons.clone(), d));
    let tile = history(ClusterGeomTile::new(partons.clone(), d));
    let general = history(ClusterHistory::new(partons.clone(), d));
    assert_eq!(naive.len(), partons.len());
    assert_eq!(geom.len(), partons.len());
    assert_eq!(tile.len(), partons.len());
    assert_eq!(general.len(), partons.len());
    for k in 0..naive.len() {
        assert_eq!(naive[k], geom[k], "step {k}");
        assert_eq!(naive[k], tile[k], "step {k}");
        assert_eq!(naive[k], general[k], "step {k}");
    }
    naive
}

#[test]
fn geom_cmp_2_to_1() {
    let partons = partons_2_to_1();
    let naive = history(ClusterNaive::new(partons.clone(), anti_kt_f(0.4)));
    let tree = history(ClusterGeom::new(partons, anti_kt_f(0.4)));

    assert_eq!(naive.len(), tree.len());
    for (naive, tree) in naive.into_iter().zip(tree) {
        assert_eq!(naive, tree)
    }
}

#[test]
fn geom_cmp_3_to_2() {
    let partons = partons_3_to_2();
    let naive = history(ClusterNaive::new(partons.clone(), anti_kt_f(0.4)));
    let tree = history(ClusterGeom::new(partons, anti_kt_f(0.4)));

    assert_eq!(naive.len(), tree.len());
    for (naive, tree) in naive.into_iter().zip(tree) {
        assert_eq!(naive, tree)
    }
}

#[test]
fn geom_cmp_4_to_4() {
    let partons = partons_4_to_4();
    let naive = history(ClusterNaive::new(partons.clone(), anti_kt_f(0.4)));
    let tree = history(ClusterGeom::new(partons, anti_kt_f(0.4)));

    assert_eq!(naive.len(), tree.len());
    for (naive, tree) in naive.into_iter().zip(tree) {
        assert_eq!(naive, tree)
    }
}

#[test]
fn geom_cmp_8_to_7() {
    let partons = partons_8_to_7();
    let naive = history(ClusterNaive::new(partons.clone(), anti_kt_f(0.4)));
    let tree = history(ClusterGeom::new(partons, anti_kt_f(0.4)));

    assert_eq!(naive.len(), tree.len());
    for (naive, tree) in naive.into_iter().zip(tree) {
        assert_eq!(naive, tree)
    }
}

#[test]
fn geom_cmp_9_to_7() {
    let partons = partons_9_to_7();
    let naive = history(ClusterNaive::new(partons.clone(), anti_kt_f(0.4)));
    let tree = history(ClusterGeom::new(partons, anti_kt_f(0.4)));

    assert_eq!(naive.len(), tree.len());
    for (naive, tree) in naive.into_iter().zip(tree) {
        assert_eq!(naive, tree)
    }
}

#[test]
fn geom_tile_cmp_2_to_1() {
    let partons = partons_2_to_1();
    let naive = history(ClusterNaive::new(partons.clone(), anti_kt_f(0.4)));
    let tree = history(ClusterGeomTile::new(partons, anti_kt_f(0.4)));

    assert_eq!(naive.len(), tree.len());
    for (naive, tree) in naive.into_iter().zip(tree) {
        assert_eq!(naive, tree)
    }
}

#[test]
fn geom_tile_cmp_3_to_2() {
    let partons = partons_3_to_2();
    let naive = history(ClusterNaive::new(partons.clone(), anti_kt_f(0.4)));
    let tree = history(ClusterGeomTile::new(partons, anti_kt_f(0.4)));

    assert_eq!(naive.len(), tree.len());
    for (naive, tree) in naive.into_iter().zip(tree) {
        assert_eq!(naive, tree)
    }
}

#[test]
fn geom_tile_cmp_4_to_4() {
    let partons = partons_4_to_4();
    let naive = history(ClusterNaive::new(partons.clone(), anti_kt_f(0.4)));
    let tree = history(ClusterGeomTile::new(partons, anti_kt_f(0.4)));

    assert_eq!(naive.len(), tree.len());
    for (naive, tree) in naive.into_iter().zip(tree) {
        assert_eq!(naive, tree)
    }
}

#[test]
fn geom_tile_cmp_8_to_7() {
    let partons = partons_8_to_7();
    let naive = history(ClusterNaive::new(partons.clone(), anti_kt_f(0.4)));
    let tree = history(ClusterGeomTile::new(partons, anti_kt_f(0.4)));

    assert_eq!(naive.len(), tree.len());
    for (naive, tree) in naive.into_iter().zip(tree) {
        assert_eq!(naive, tree)
    }
}

#[test]
fn geom_tile_cmp_9_to_7() {
    let partons = partons_9_to_7();
    let naive = history(ClusterNaive::new(partons.clone(), anti_kt_f(0.4)));
    let tree = history(ClusterGeomTile::new(partons, anti_kt_f(0.4)));

    assert_eq!(naive.len(), tree.len());
    for (naive, tree) in naive.into_iter().zip(tree) {
        assert_eq!(naive, tree)
    }
}

#[test]
fn tst_cluster() {
    let partons = partons_9_to_7();

    let jets = partons.cluster(anti_kt_f(0.4));
    assert_eq!(jets.len(), 7);
}

#[test]
fn tst_cluster_none() {
    let partons = partons_4_to_4();

    let jets = partons.cluster(anti_kt_f(0.4));
    assert_eq!(jets.len(), 4);
}

#[test]
fn tst_cluster_both() {
    let partons = partons_2_to_1();

    // get all jets
    let all_jets = partons.clone().cluster(anti_kt_f(0.4));
    assert_eq!(all_jets.len(), 1);

    // get all jets with at least 40 GeV
    let jets_40gev = partons
        .clone()
        .cluster_if(anti_kt_f(0.4), |jet| pt2(&jet) > 20.);
    assert_eq!(jets_40gev.len(), 0);
}

#[test]
fn tst_cluster_3_to_2() {
    let partons = partons_3_to_2();

    let jets = partons.cluster(anti_kt_f(0.4));
    assert_eq!(jets.len(), 2);
}

#[test]
fn tst_cluster_8_to_7() {
    let partons = partons_8_to_7();

    let jets = partons.cluster(anti_kt_f(0.4));
    assert_eq!(jets.len(), 7);
}

#[test]
fn free_functions_agree_with_the_trait() {
    let partons = partons_9_to_7();
    let jets = partons.clone().cluster(anti_kt_f(0.4));
    assert_eq!(cluster(partons.clone(), anti_kt_f(0.4)), jets);
    assert_eq!(cluster_if(partons.clone(), anti_kt_f(0.4), |_| true), jets);
    assert_eq!(cluster_if(partons.clone(), anti_kt_f(0.4), |_| false), vec![]);
    let hard: Vec<PseudoJet> = jets.iter().copied().filter(|j| pt2(j) > 10.).collect();
    assert!(!hard.is_empty() && hard.len() < jets.len());
    assert_eq!(cluster_if(partons, anti_kt_f(0.4), |j| pt2(&j) > 10.), hard);
}

#[test]
fn a_borrowed_measure_is_a_measure() {
    let partons = partons_8_to_7();
    let d = anti_kt_f(0.4);
    let jets = partons.clone().cluster(d);
    assert_eq!(cluster(partons.clone(), &d), jets);
    assert_eq!(history(ClusterGeom::new(partons.clone(), &d)), history(ClusterGeom::new(partons, d)));
}

#[test]
fn two_to_one_history() {
    let partons = partons_2_to_1();
    let steps = compare_engines(partons.clone(), anti_kt_f(0.4));
    let sum = plus(&partons[1], &partons[0]);
    assert_eq!(steps.len(), 2);
    assert_eq!(steps[0], ClusterStep::Combine([partons[0], partons[1]]));
    assert_eq!(steps[1], ClusterStep::Jet(sum));
    assert_eq!(partons.cluster(anti_kt_f(0.4)), vec![sum]);
}

#[test]
fn scenarios_agree_across_algorithms() {
    assert_eq!(n_jets(&compare_engines(partons_2_to_1(), anti_kt_f(0.4))), 1);
    assert_eq!(n_jets(&compare_engines(partons_3_to_2(), anti_kt_f(0.4))), 2);
    assert_eq!(n_jets(&compare_engines(partons_4_to_4(), anti_kt_f(0.4))), 4);
    assert_eq!(n_jets(&compare_engines(partons_8_to_7(), anti_kt_f(0.4))), 7);
    assert_eq!(n_jets(&compare_engines(partons_9_to_7(), anti_kt_f(0.4))), 7);
}

#[test]
fn four_well_separated_partons_are_four_jets() {
    let partons = partons_4_to_4();
    let steps = compare_engines(partons.clone(), anti_kt_f(0.4));
    assert!(steps.iter().all(|s| s.is_jet()));
    let mut jets = partons.clone().cluster(anti_kt_f(0.4));
    let mut expected = partons;
    jets.sort_by(|a, b| a.e().to_bits().cmp(&b.e().to_bits()));
    expected.sort_by(|a, b| a.e().to_bits().cmp(&b.e().to_bits()));
    assert_eq!(jets, expected);
}

#[test]
fn other_measures_agree_across_algorithms() {
    for partons in [partons_3_to_2(), partons_8_to_7(), partons_9_to_7(), spread(55)] {
        compare_engines(partons.clone(), kt_f(0.4));
        compare_engines(partons.clone(), gen_kt_f(0.4, -0.5));
        compare_engines(partons, gen_kt_f(0.4, 1.));
    }
}

#[test]
fn equal_beam_distances_give_the_same_jets_in_another_order() {
    let by_bits = |jets: &mut Vec<PseudoJet>| {
        jets.sort_by_key(|p| [p.e().to_bits(), p.px().to_bits(), p.py().to_bits()]);
    };
    for partons in [partons_3_to_2(), partons_8_to_7(), partons_9_to_7()] {
        let d = cambridge_aachen_f(0.4);
        let jets_of = |steps: Vec<ClusterStep>| -> Vec<PseudoJet> {
            let mut jets = Vec::new();
            for step in steps {
                if let ClusterStep::Jet(p) = step {
                    jets.push(p);
                }
            }
            jets
        };
        let mut naive = jets_of(history(ClusterNaive::new(partons.clone(), d)));
        let mut geom = jets_of(history(ClusterGeom::new(partons.clone(), d)));
        let mut tile = jets_of(history(ClusterGeomTile::new(partons.clone(), d)));
        by_bits(&mut naive);
        by_bits(&mut geom);
        by_bits(&mut tile);
        assert_eq!(naive, geom);
        assert_eq!(naive, tile);
    }
    // three partons, of which the last two are combined first
    let partons = partons_3_to_2();
    let d = cambridge_aachen_f(0.4);
    let naive = history(ClusterNaive::new(partons.clone(), d));
    let geom = history(ClusterGeom::new(partons.clone(), d));
    assert_eq!(naive[0], geom[0]);
    assert!(!naive[0].is_jet());
    assert_ne!(naive[1], geom[1]);
    assert_eq!(naive[1], geom[2]);
}

#[test]
fn generalised_kt_contains_the_other_measures() {
    let partons = partons_9_to_7();
    let anti = history(ClusterNaive::new(partons.clone(), anti_kt_f(0.7)));
    let gen = history(ClusterNaive::new(partons.clone(), gen_kt_f(0.7, -1.)));
    assert_eq!(n_jets(&anti), n_jets(&gen));
    let kt = history(ClusterNaive::new(partons.clone(), kt_f(0.7)));
    let gen = history(ClusterNaive::new(partons.clone(), gen_kt_f(0.7, 1.)));
    assert_eq!(kt, gen);
    let ca = history(ClusterNaive::new(partons.clone(), cambridge_aachen_f(0.7)));
    let gen = history(ClusterNaive::new(partons, gen_kt_f(0.7, 0.)));
    assert_eq!(ca, gen);
}

#[test]
fn number_of_steps_is_number_of_partons() {
    for n in [0, 1, 2, 3, 10, 24, 25, 26, 49, 50, 51, 120] {
        let partons = spread(n);
        for steps in [
            history(ClusterNaive::new(partons.clone(), anti_kt_f(0.4))),
            history(ClusterGeom::new(partons.clone(), anti_kt_f(0.4))),
            history(ClusterGeomTile::new(partons.clone(), anti_kt_f(0.4))),
            history(ClusterHistory::new(partons.clone(), anti_kt_f(0.4))),
            ClusterHistory::new(partons.clone(), anti_kt_f(0.4)).steps(),
        ] {
            assert_eq!(steps.len(), n);
            let combined = steps.iter().filter(|s| !s.is_jet()).count();
            assert_eq!(n_jets(&steps) + combined, n);
        }
        let jets = partons.clone().cluster(anti_kt_f(0.4));
        assert!(jets.len() <= n);
        assert_eq!(jets.is_empty(), n == 0);
    }
}

#[test]
fn no_partons_no_steps() {
    assert_eq!(ClusterNaive::new(vec![], anti_kt_f(0.4)).next(), None);
    assert_eq!(ClusterGeom::new(vec![], anti_kt_f(0.4)).next(), None);
    assert_eq!(ClusterGeomTile::new(vec![], anti_kt_f(0.4)).next(), None);
    assert_eq!(ClusterHistory::new(vec![], anti_kt_f(0.4)).next(), None);
    assert_eq!(Vec::<PseudoJet>::new().cluster(anti_kt_f(0.4)), vec![]);
}

#[test]
fn one_parton_is_one_jet() {
    let p = pseudojet_f(10., 3., 4., 5.);
    assert_eq!(compare_engines(vec![p], anti_kt_f(0.4)), vec![ClusterStep::Jet(p)]);
    assert_eq!(vec![p].cluster(kt_f(0.4)), vec![p]);
}

#[test]
fn thresholds_choose_the_algorithm() {
    for n in [0, 1, 2, 24, 25, 49, 50, 77] {
        let partons = spread(n);
        let general = history(ClusterHistory::new(partons.clone(), anti_kt_f(0.4)));
        let expected = if n >= 50 {
            history(ClusterGeomTile::new(partons.clone(), anti_kt_f(0.4)))
        } else if n >= 25 {
            history(ClusterGeom::new(partons.clone(), anti_kt_f(0.4)))
        } else {
            history(ClusterNaive::new(partons.clone(), anti_kt_f(0.4)))
        };
        assert_eq!(general.len(), n);
        assert_eq!(general, expected);
        let jets: Vec<PseudoJet> = general
            .iter()
            .filter_map(|s| match s {
                ClusterStep::Jet(p) => Some(*p),
                ClusterStep::Combine(_) => None,
            })
            .collect();
        assert_eq!(partons.cluster(anti_kt_f(0.4)), jets);
    }
}

#[test]
fn algorithms_agree_on_spread_partons() {
    for n in [2, 5, 24, 25, 49, 50, 80] {
        compare_engines(spread(n), anti_kt_f(0.4));
    }
}

#[test]
fn steps_collects_what_next_gives() {
    for n in [0, 7, 30, 60] {
        let partons = spread(n);
        let one_by_one = history(ClusterHistory::new(partons.clone(), anti_kt_f(0.4)));
        let mut hist = ClusterHistory::new(partons.clone(), anti_kt_f(0.4));
        assert_eq!(hist.steps(), one_by_one);
        assert_eq!(hist.next(), None);
        let mut naive = ClusterNaive::new(partons.clone(), anti_kt_f(0.4));
        assert_eq!(
            remaining_steps(&mut naive),
            history(ClusterNaive::new(partons.clone(), anti_kt_f(0.4)))
        );
        assert_eq!(naive.next(), None);
        let mut geom = ClusterGeom::new(partons.clone(), anti_kt_f(0.4));
        let first = geom.next();
        let rest = remaining_steps(&mut geom);
        assert_eq!(rest.len() + first.iter().count(), n);
        let steps = history(ClusterGeom::new(partons, anti_kt_f(0.4)));
        assert_eq!(first.as_ref(), steps.first());
        assert_eq!(rest, steps.iter().skip(1).copied().collect::<Vec<_>>());
        assert_eq!(jets(&steps).len(), n_jets(&steps));
    }
}

#[test]
fn whole_numbers_are_conserved_exactly() {
    for n in [1, 9, 24, 25, 49, 50, 90] {
        let partons = whole(n);
        for steps in [
            history(ClusterNaive::new(partons.clone(), anti_kt_f(0.6))),
            history(ClusterGeom::new(partons.clone(), anti_kt_f(0.6))),
            history(ClusterGeomTile::new(partons.clone(), anti_kt_f(0.6))),
            history(ClusterHistory::new(partons.clone(), kt_f(1.))),
        ] {
            assert_eq!(steps.len(), n);
            assert!(n < 9 || n_jets(&steps) < n);
            for i in 0..4 {
                let mut before = 0.;
                for p in &partons {
                    before += f64::from(number(p.component(i)));
                }
                let mut after = 0.;
                for step in &steps {
                    if let ClusterStep::Jet(p) = step {
                        after += f64::from(number(p.component(i)));
                    }
                }
                assert_eq!(before, after);
            }
        }
    }
}

#[test]
fn four_momentum_is_conserved() {
    for partons in [partons_2_to_1(), partons_3_to_2(), partons_9_to_7(), spread(60)] {
        let jets = partons.clone().cluster(anti_kt_f(0.4));
        for i in 0..4 {
            let before: f64 = partons.iter().map(|p| f64::from(number(p.component(i)))).sum();
            let after: f64 = jets.iter().map(|p| f64::from(number(p.component(i)))).sum();
            let scale: f64 = partons.iter().map(|p| f64::from(number(p.component(i))).abs()).sum();
            assert!((before - after).abs() <= 1e-12 * scale, "{before} {after}");
        }
    }
}

#[test]
fn a_combination_is_an_unordered_pair() {
    let a = pseudojet_f(10., 3., 4., 5.);
    let b = pseudojet_f(7., -1., 2., 6.);
    let c = pseudojet_f(7., -1., 2., 6.5);
    let ab = ClusterStep::Combine([a, b]);
    let ba = ClusterStep::Combine([b, a]);
    assert_eq!(ab, ba);
    assert_eq!(ba, ab);
    assert_eq!(hash_of(&ab), hash_of(&ba));
    assert_eq!(ab.canonical(), ba.canonical());
    assert_eq!(ab.hash_key(), ba.hash_key());
    assert_eq!(ab.canonical(), ClusterStep::Combine([b, a]));
    assert_ne!(ab, ClusterStep::Combine([a, c]));
    assert_ne!(ab, ClusterStep::Combine([a, a]));
    assert_ne!(hash_of(&ab), hash_of(&ClusterStep::Combine([a, c])));
    assert_ne!(ab, ClusterStep::Jet(a));
    assert_ne!(ClusterStep::Jet(a), ab);
    assert_eq!(ClusterStep::Jet(a), ClusterStep::Jet(a));
    assert_ne!(ClusterStep::Jet(a), ClusterStep::Jet(b));
    assert_eq!(hash_of(&ClusterStep::Jet(a)), hash_of(&ClusterStep::Jet(a)));
    assert_ne!(hash_of(&ClusterStep::Jet(a)), hash_of(&ClusterStep::Jet(b)));
    assert_ne!(hash_of(&ClusterStep::Jet(a)), hash_of(&ClusterStep::Combine([a, a])));
    assert_eq!(ClusterStep::Jet(a).canonical(), ClusterStep::Jet(a));
    assert!(ClusterStep::Jet(a).is_jet());
    assert!(!ab.is_jet());
}

#[test]
fn hash_key_lists_the_bits() {
    let a = pseudojet_f(10., 3., 4., 5.);
    let b = pseudojet_f(7., -1., 2., 6.);
    let bits = |p: &PseudoJet| -> Vec<u64> { (0..7).map(|i| p.part(i).to_bits()).collect() };
    let mut jet = vec![1];
    jet.extend(bits(&a));
    assert_eq!(ClusterStep::Jet(a).hash_key(), jet);
    let mut pair = vec![2];
    pair.extend(bits(&b));
    pair.extend(bits(&a));
    assert_eq!(ClusterStep::Combine([a, b]).hash_key(), pair);
}

#[test]
fn steps_from_pseudojets() {
    let a = pseudojet_f(10., 3., 4., 5.);
    let b = pseudojet_f(7., -1., 2., 6.);
    assert_eq!(ClusterStep::from(a), ClusterStep::Jet(a));
    assert_eq!(ClusterStep::from([a, b]), ClusterStep::Combine([a, b]));
    let step: ClusterStep = a.into();
    assert!(step.is_jet());
}

#[test]
fn distances_are_symmetric_and_not_negative() {
    let partons = partons_9_to_7();
    for a in &partons {
        for b in &partons {
            let all = [
                (anti_kt_f(0.4).distance(a, b), anti_kt_f(0.4).distance(b, a)),
                (kt_f(0.4).distance(a, b), kt_f(0.4).distance(b, a)),
                (cambridge_aachen_f(0.4).distance(a, b), cambridge_aachen_f(0.4).distance(b, a)),
                (gen_kt_f(0.4, 0.3).distance(a, b), gen_kt_f(0.4, 0.3).distance(b, a)),
                (anti_kt_f(0.4).delta_r2(a, b), anti_kt_f(0.4).delta_r2(b, a)),
            ];
            for (ab, ba) in all {
                assert_eq!(ab, ba);
                assert!(Scalar::zero().le(ab));
            }
        }
        assert!(Scalar::zero().le(anti_kt_f(0.4).beam_distance(a)));
        assert!(Scalar::zero().le(kt_f(0.4).beam_distance(a)));
        assert!(Scalar::zero().le(gen_kt_f(0.4, 0.3).beam_distance(a)));
        assert_eq!(cambridge_aachen_f(0.4).beam_distance(a), Scalar::one());
    }
}

#[test]
fn anti_kt_distance_value() {
    let a = pseudojet_f(5., 3., 4., 0.);
    let b = pseudojet_f(13., 0., 12., 5.);
    assert_eq!(f64::from(pt2(&a)), 25.);
    assert_eq!(f64::from(number(a.inv_pt2())), 1. / 25.);
    assert_eq!(f64::from(number(b.inv_pt2())), 1. / 144.);
    assert_eq!(f64::from(number(a.rap())), 0.);
    assert_eq!(f64::from(number(b.phi())), PI / 2.);
    let dphi = PI / 2. - 4f64.atan2(3.);
    let drap = (18f64 / 8.).ln() / 2.;
    let dr2 = dphi * dphi + drap * drap;
    assert_eq!(f64::from(delta_r2(&b, &a)), dr2);
    assert_eq!(anti_kt_f(0.5).distance(&a, &b).to_bits(), ((1. / 144.) * dr2 / 0.25).to_bits());
    assert_eq!(kt_f(0.5).distance(&a, &b).to_bits(), (25. * dr2 / 0.25).to_bits());
    assert_eq!(cambridge_aachen_f(0.5).distance(&a, &b).to_bits(), (dr2 / 0.25).to_bits());
    assert_eq!(anti_kt_f(0.5).beam_distance(&a).to_bits(), (1f64 / 25.).to_bits());
    assert_eq!(kt_f(0.5).beam_distance(&a).to_bits(), 25f64.to_bits());
}

#[test]
fn azimuth_is_normalised() {
    for (px, py) in [
        (1., 0.),
        (1., 1.),
        (0., 1.),
        (-1., 1e-300),
        (-1., 0.),
        (-1., -1e-300),
        (0., -1.),
        (1., -1e-300),
        (1., -1e-17),
        (1., -0.0),
        (0., 0.),
    ] {
        let p = pseudojet_f(2., px, py, 1.);
        let phi = f64::from(number(p.phi()));
        assert!(0. <= phi && phi < 2. * PI, "{px} {py} {phi}");
        assert!(phi.is_sign_positive());
    }
    assert_eq!(f64::from(number(pseudojet_f(2., 0., -1., 1.).phi())), 1.5 * PI);
    assert_eq!(f64::from(number(pseudojet_f(2., 1., -1e-300, 1.).phi())), 0.);
}

#[test]
fn azimuth_differences_go_the_short_way() {
    let at = |phi: f64| pseudojet_f(2., phi.cos(), phi.sin(), 1.);
    let a = at(0.05);
    let b = at(2. * PI - 0.05);
    assert!((f64::from(delta_phi(&a, &b)) - 0.1).abs() < 1e-12);
    assert!((f64::from(delta_phi(&b, &a)) + 0.1).abs() < 1e-12);
    assert!((f64::from(delta_phi_abs(&a, &b)) - 0.1).abs() < 1e-12);
    assert!((f64::from(delta_phi_abs(&b, &a)) - 0.1).abs() < 1e-12);
    for k in 0..40 {
        for l in 0..40 {
            let (p, q) = (at(0.16 * k as f64), at(0.16 * l as f64));
            let d = f64::from(delta_phi(&p, &q));
            assert!(-PI < d && d <= PI);
            let d = f64::from(delta_phi_abs(&p, &q));
            assert!(0. <= d && d <= PI);
        }
    }
}

#[test]
fn partons_across_the_azimuth_origin_merge() {
    let at = |pt: f64, phi: f64, rap: f64| {
        pseudojet_f(pt * rap.cosh(), pt * phi.cos(), pt * phi.sin(), pt * rap.sinh())
    };
    let a = at(10., 0.05, 0.3);
    let b = at(20., 2. * PI - 0.05, 0.3);
    let steps = compare_engines(vec![a, b], anti_kt_f(0.4));
    assert_eq!(steps[0], ClusterStep::Combine([a, b]));
    assert_eq!(n_jets(&steps), 1);
    // far apart the long way round only
    let c = at(20., PI + 0.05, 0.3);
    let steps = compare_engines(vec![a, c], anti_kt_f(0.4));
    assert_eq!(n_jets(&steps), 2);
    // many partons, so that the tiles decide who is looked at
    let mut many = spread(60);
    many.push(at(1000., 0.01, -4.9));
    many.push(at(2000., 2. * PI - 0.01, -4.9));
    let steps = history(ClusterHistory::new(many.clone(), anti_kt_f(0.4)));
    assert!(steps.contains(&ClusterStep::Combine([many[60], many[61]])));
}

#[test]
fn tiles_only_look_around() {
    let at = |pt: f64, phi: f64, rap: f64| {
        pseudojet_f(pt * rap.cosh(), pt * phi.cos(), pt * phi.sin(), pt * rap.sinh())
    };
    let a = at(10., 1., -2.);
    let b = at(10., 1., 2.);
    // with a radius beyond the size of a tile the two are nearer to each
    // other than to the beam, but four rows apart
    let d = anti_kt_f(5.);
    assert!(d.distance(&a, &b).lt(d.beam_distance(&a)));
    let naive = history(ClusterNaive::new(vec![a, b], d));
    let geom = history(ClusterGeom::new(vec![a, b], d));
    let tile = history(ClusterGeomTile::new(vec![a, b], d));
    assert_eq!(naive[0], ClusterStep::Combine([a, b]));
    assert_eq!(geom, naive);
    assert_eq!(tile, vec![ClusterStep::Jet(a), ClusterStep::Jet(b)]);
    // one row apart they are found
    let c = at(10., 1., -1.2);
    let tile = history(ClusterGeomTile::new(vec![a, c], d));
    assert_eq!(tile[0], ClusterStep::Combine([a, c]));
}

#[test]
fn partons_in_the_same_direction_merge() {
    let a = pseudojet_f(10., 3., 4., 5.);
    let b = pseudojet_f(20., 6., 8., 10.);
    assert_eq!(f64::from(delta_r2(&a, &b)), 0.);
    for d in [anti_kt_f(0.4), anti_kt_f(1.)] {
        let steps = compare_engines(vec![a, b], d);
        assert_eq!(steps.len(), 2);
        assert_eq!(steps[0], ClusterStep::Combine([a, b]));
        assert_eq!(steps[1], ClusterStep::Jet(plus(&a, &b)));
    }
    let steps = compare_engines(vec![a, a], kt_f(0.4));
    assert_eq!(steps[0], ClusterStep::Combine([a, a]));
}

#[test]
fn partons_along_the_beam_are_jets() {
    let along = pseudojet_f(7., 0., 0., 7.);
    assert_eq!(number(along.inv_pt2()), n64(f64::INFINITY));
    assert_eq!(f64::from(pt2(&along)), 0.);
    assert_eq!(f64::from(number(along.phi())), 0.);
    let mut partons = partons_9_to_7();
    partons.insert(3, along);
    for steps in [
        history(ClusterNaive::new(partons.clone(), anti_kt_f(0.4))),
        history(ClusterGeom::new(partons.clone(), anti_kt_f(0.4))),
        history(ClusterGeomTile::new(partons.clone(), anti_kt_f(0.4))),
    ] {
        assert_eq!(steps.len(), 10);
        assert_eq!(n_jets(&steps), 8);
        assert_eq!(steps[9], ClusterStep::Jet(along));
    }
    assert_eq!(
        compare_engines(vec![along], anti_kt_f(0.4)),
        vec![ClusterStep::Jet(along)]
    );
    let at_rest = pseudojet_f(0., 0., 0., 0.);
    assert_eq!(at_rest, PseudoJet::new());
    assert_eq!(
        history(ClusterGeom::new(vec![at_rest], anti_kt_f(0.4))),
        vec![ClusterStep::Jet(at_rest)]
    );
}
