//! Hub relay: error-correcting relay nodes.
//!
//! Hub nodes in the mycorrhizal mesh act like major fungal junctions:
//! they receive messages, apply phyto-code error correction, and relay
//! them onward. Each hop reduces the residual error rate, so messages
//! that traverse multiple hubs become progressively more reliable.
//!
//! Rates and correction factors are in units of 10^-18, latencies in
//! microseconds.  A rate of error above one is read as one.
use vstd::prelude::*;
use crate::hyphae_link::{HyphaeLink, UNIT, unit_complement};
use crate::ident::{id_views, same_id};
use crate::mesh::{Mesh, MeshNode, first_node};
use crate::mesh_routing::{first_link, MeshRouter, path_latency, step_latency};

verus! {

broadcast use vstd::seq_lib::group_seq_properties;

/// The error left of `e` after a correction that removes the fraction `c`
/// of it (rounded down); a correction above one removes everything.
pub open spec fn corrected(e: u64, c: u64) -> u64 {
    (e * unit_complement(c) / (UNIT as int)) as u64
}

/// The error after a stage of error `e` is followed by a link of error
/// rate `le`: `1 - (1 - e)(1 - le)`, the product rounded down.
pub open spec fn compounded(e: u64, le: u64) -> u64 {
    (UNIT - unit_complement(e) * unit_complement(le) / (UNIT as int)) as u64
}

/// `e` after `n` corrections by `c`.
pub open spec fn corrected_times(e: u64, c: u64, n: nat) -> u64
    decreases n,
{
    if n == 0 {
        e
    } else {
        corrected_times(corrected(e, c), c, (n - 1) as nat)
    }
}

proof fn lemma_corrected_bounds(e: u64, c: u64)
    ensures
        0 <= e * unit_complement(c) / (UNIT as int) <= e,
        corrected(e, c) <= e,
        c == 0 ==> corrected(e, c) == e,
        e == 0 ==> corrected(e, c) == 0,
        e > 0 && c > 0 ==> corrected(e, c) < e,
{
    let f = unit_complement(c);
    assert(e * f <= e * UNIT) by (nonlinear_arith)
        requires
            f <= UNIT,
    ;
    assert(0 <= e * f) by (nonlinear_arith);
    vstd::arithmetic::div_mod::lemma_div_is_ordered(e * f, e * UNIT, UNIT as int);
    vstd::arithmetic::div_mod::lemma_div_is_ordered(0, e * f, UNIT as int);
    vstd::arithmetic::div_mod::lemma_div_multiples_vanish(e as int, UNIT as int);
    if e > 0 && c > 0 {
        assert(f < UNIT);
        assert(e * f <= e * UNIT - e) by (nonlinear_arith)
            requires
                f <= UNIT - 1,
                e > 0,
        ;
        assert((e * f) / (UNIT as int) < e) by (nonlinear_arith)
            requires
                e * f <= e * UNIT - e,
                e > 0,
        ;
    }
    if e == 0 {
        assert(e * f == 0);
    }
}

proof fn lemma_compounded_bounds(e: u64, le: u64)
    ensures
        0 <= unit_complement(e) * unit_complement(le) / (UNIT as int) <= UNIT,
        compounded(e, le) <= UNIT,
{
    let a = unit_complement(e);
    let b = unit_complement(le);
    assert(a * b <= UNIT * b) by (nonlinear_arith)
        requires
            a <= UNIT,
    ;
    assert(UNIT * b <= UNIT * UNIT) by (nonlinear_arith)
        requires
            b <= UNIT,
    ;
    assert(0 <= a * b) by (nonlinear_arith);
    vstd::arithmetic::div_mod::lemma_div_is_ordered(a * b, UNIT * UNIT, UNIT as int);
    vstd::arithmetic::div_mod::lemma_div_is_ordered(0, a * b, UNIT as int);
    vstd::arithmetic::div_mod::lemma_div_multiples_vanish(UNIT as int, UNIT as int);
}

proof fn lemma_floor_div(x: int, d: int)
    requires
        x >= 0,
        d > 0,
    ensures
        (x / d) * d <= x < (x / d + 1) * d,
{
    vstd::arithmetic::div_mod::lemma_fundamental_div_mod(x, d);
    vstd::arithmetic::div_mod::lemma_mod_bound(x, d);
    let q = x / d;
    assert(q * d == d * q && (q + 1) * d == d * q + d) by (nonlinear_arith);
}

/// A correction by `c` keeps the fraction `1 - c` of the error, rounded
/// down to a whole unit of 10^-18.
pub proof fn lemma_correction_keeps_rest(e: u64, c: u64)
    ensures
        corrected(e, c) * UNIT <= e * unit_complement(c),
        e * unit_complement(c) < (corrected(e, c) + 1) * UNIT,
{
    lemma_corrected_bounds(e, c);
    let f = unit_complement(c);
    assert(e * f >= 0) by (nonlinear_arith);
    lemma_floor_div(e * f, UNIT as int);
}

/// Getting through a stage and then a link is as likely as the product of
/// the chances of getting through each: the chance left after compounding
/// is that product, rounded down to a whole unit of 10^-18.
pub proof fn lemma_compounding_multiplies_chances(e: u64, le: u64)
    ensures
        unit_complement(compounded(e, le)) * UNIT <= unit_complement(e) * unit_complement(le),
        unit_complement(e) * unit_complement(le) < (unit_complement(compounded(e, le)) + 1) * UNIT,
{
    lemma_compounded_bounds(e, le);
    let a: u64 = unit_complement(e);
    let b: u64 = unit_complement(le);
    assert(a * b >= 0) by (nonlinear_arith);
    lemma_floor_div(a * b, UNIT as int);
}

/// A single hop through a hub relay.
#[derive(Debug, Clone)]
pub struct RelayHop {
    pub hub_id: String,
    pub incoming_error_rate: u64,
    pub outgoing_error_rate: u64,
    /// Phyto-code correction factor applied at this hop.
    pub correction_factor: u64,
}

/// The hop's identifier, rates and correction.
pub open spec fn hop_view(h: RelayHop) -> (Seq<char>, u64, u64, u64) {
    (h.hub_id@, h.incoming_error_rate, h.outgoing_error_rate, h.correction_factor)
}

/// The views of a sequence of hops.
pub open spec fn hop_views(hs: Seq<RelayHop>) -> Seq<(Seq<char>, u64, u64, u64)> {
    hs.map_values(|h: RelayHop| hop_view(h))
}

impl RelayHop {
    pub fn new(hub_id: &str, incoming_error: u64, correction: u64) -> (r: Self)
        ensures
            r.hub_id@ == hub_id@,
            r.incoming_error_rate == incoming_error,
            r.outgoing_error_rate == corrected(incoming_error, correction),
            r.correction_factor == correction,
            r.outgoing_error_rate <= r.incoming_error_rate,
    {
        let outgoing = correct(incoming_error, correction);
        proof {
            lemma_corrected_bounds(incoming_error, correction);
        }
        RelayHop {
            hub_id: hub_id.to_owned(),
            incoming_error_rate: incoming_error,
            outgoing_error_rate: outgoing,
            correction_factor: correction,
        }
    }
}

fn complement(x: u64) -> (r: u64)
    ensures
        r == unit_complement(x),
{
    if x >= UNIT {
        0
    } else {
        UNIT - x
    }
}

fn correct(e: u64, c: u64) -> (r: u64)
    ensures
        r == corrected(e, c),
{
    let f = complement(c);
    proof {
        lemma_corrected_bounds(e, c);
    }
    assert(e as u128 * f as u128 <= u64::MAX as u128 * UNIT as u128) by (nonlinear_arith)
        requires
            f <= UNIT,
    ;
    ((e as u128 * f as u128) / (UNIT as u128)) as u64
}

fn compound(e: u64, le: u64) -> (r: u64)
    ensures
        r == compounded(e, le),
{
    let a = complement(e);
    let b = complement(le);
    proof {
        lemma_compounded_bounds(e, le);
    }
    assert(a as u128 * b as u128 <= UNIT as u128 * UNIT as u128) by (nonlinear_arith)
        requires
            a <= UNIT,
            b <= UNIT,
    ;
    let kept = ((a as u128 * b as u128) / (UNIT as u128)) as u64;
    UNIT - kept
}

/// Result of relaying a message through a series of hub nodes.
#[derive(Debug, Clone)]
pub struct RelayResult {
    pub path: Vec<String>,
    pub hops: Vec<RelayHop>,
    /// Cumulative error rate after all corrections.
    pub final_error_rate: u64,
    /// Overall reliability = 1 - final_error_rate.
    pub reliability: u64,
    /// Total latency across all hops.
    pub total_latency: u64,
    /// Whether the message is considered delivered successfully.
    pub delivered: bool,
}

/// A message counts as delivered above this reliability (one half).
pub const DELIVERY_RELIABILITY: u64 = 500_000_000_000_000_000;

impl RelayResult {
    /// The result of a relay: the error left by the last hop (none without
    /// hops), its complement as reliability, and delivery when that is above
    /// one half.
    pub fn new(path: Vec<String>, hops: Vec<RelayHop>, total_latency: u64) -> (r: Self)
        ensures
            r.path@ == path@,
            r.hops@ == hops@,
            r.total_latency == total_latency,
            r.final_error_rate == if hops@.len() == 0 {
                0
            } else {
                hops@.last().outgoing_error_rate
            },
            r.reliability == unit_complement(r.final_error_rate),
            r.delivered == (r.reliability > DELIVERY_RELIABILITY),
    {
        let final_error_rate = if hops.len() == 0 {
            0
        } else {
            hops[hops.len() - 1].outgoing_error_rate
        };
        let reliability = complement(final_error_rate);
        let delivered = reliability > DELIVERY_RELIABILITY;
        RelayResult { path, hops, final_error_rate, reliability, total_latency, delivered }
    }
}

/// Hub relay that applies error correction at each hop.
#[derive(Debug, Clone)]
pub struct HubRelay {
    /// Default phyto-code correction factor per hop, in units of 10^-18.
    pub correction_factor: u64,
    /// Per-hub correction overrides; a later entry for a hub replaces an
    /// earlier one.
    pub hub_corrections: Vec<(String, u64)>,
}

/// The correction for hub `id`: its latest override, else the default.
pub open spec fn correction_for(entries: Seq<(String, u64)>, default: u64, id: Seq<char>) -> u64
    decreases entries.len(),
{
    if entries.len() == 0 {
        default
    } else if entries.last().0@ == id {
        entries.last().1
    } else {
        correction_for(entries.drop_last(), default, id)
    }
}

/// A relay stage at node `x`: when the first node carrying `x` is a hub, the
/// error is corrected there and the hop recorded.
pub open spec fn hub_stage(
    entries: Seq<(String, u64)>,
    default: u64,
    nodes: Seq<MeshNode>,
    x: Seq<char>,
    e: u64,
    hops: Seq<(Seq<char>, u64, u64, u64)>,
) -> (u64, Seq<(Seq<char>, u64, u64, u64)>) {
    match first_node(nodes, x) {
        Some(n) => if n.is_hub {
            let c = correction_for(entries, default, n.id@);
            (corrected(e, c), hops.push((n.id@, e, corrected(e, c), c)))
        } else {
            (e, hops)
        },
        None => (e, hops),
    }
}

/// A link stage from `a` to `b`: when a link joins them, its error compounds
/// the message's and its latency adds up (saturating).
pub open spec fn link_stage(links: Seq<HyphaeLink>, a: Seq<char>, b: Seq<char>, e: u64, lat: u64) -> (u64, u64) {
    match first_link(links, a, b) {
        Some(l) => (compounded(e, l.error_rate), if lat + l.latency > u64::MAX {
            u64::MAX
        } else {
            (lat + l.latency) as u64
        }),
        None => (e, lat),
    }
}

/// The error, hops and latency after the first `i` steps of the path: each
/// step crosses to the next node, then corrects at the node it left.
pub open spec fn relay_prefix(
    entries: Seq<(String, u64)>,
    default: u64,
    nodes: Seq<MeshNode>,
    links: Seq<HyphaeLink>,
    path: Seq<Seq<char>>,
    init: u64,
    i: nat,
) -> (u64, Seq<(Seq<char>, u64, u64, u64)>, u64)
    decreases i,
{
    if i == 0 {
        (init, Seq::empty(), 0)
    } else {
        let prev = relay_prefix(entries, default, nodes, links, path, init, (i - 1) as nat);
        let (e1, lat1) = link_stage(links, path[i - 1], path[i as int], prev.0, prev.2);
        let (e2, hs) = hub_stage(entries, default, nodes, path[i - 1], e1, prev.1);
        (e2, hs, lat1)
    }
}

/// The error, hops and latency of relaying along the whole path: every
/// step, then a correction at the last node.  The error is the cumulative
/// error after every link and every correction (the starting error when the
/// path is empty).
pub open spec fn relay_outcome(
    entries: Seq<(String, u64)>,
    default: u64,
    nodes: Seq<MeshNode>,
    links: Seq<HyphaeLink>,
    path: Seq<Seq<char>>,
    init: u64,
) -> (u64, Seq<(Seq<char>, u64, u64, u64)>, u64) {
    if path.len() == 0 {
        (init, Seq::empty(), 0)
    } else {
        let p = relay_prefix(entries, default, nodes, links, path, init, (path.len() - 1) as nat);
        let (e, hs) = hub_stage(entries, default, nodes, path[path.len() - 1], p.0, p.1);
        (e, hs, p.2)
    }
}

impl HubRelay {
    pub fn new(correction_factor: u64) -> (r: Self)
        ensures
            r.correction_factor == correction_factor,
            r.hub_corrections@.len() == 0,
    {
        HubRelay { correction_factor, hub_corrections: Vec::new() }
    }

    /// Set a custom correction factor for a specific hub.
    pub fn with_hub_correction(self, hub_id: &str, factor: u64) -> (r: Self)
        ensures
            r.correction_factor == self.correction_factor,
            forall|id: Seq<char>|
                correction_for(r.hub_corrections@, r.correction_factor, id) == if id == hub_id@ {
                    factor
                } else {
                    correction_for(self.hub_corrections@, self.correction_factor, id)
                },
    {
        let mut entries = self.hub_corrections;
        let ghost before = entries@;
        entries.push((hub_id.to_owned(), factor));
        assert(entries@.drop_last() =~= before);
        HubRelay { correction_factor: self.correction_factor, hub_corrections: entries }
    }

    /// The correction for hub `id`.
    fn correction_of(&self, id: &str) -> (r: u64)
        ensures
            r == correction_for(self.hub_corrections@, self.correction_factor, id@),
    {
        let entries = &self.hub_corrections;
        let mut k = entries.len();
        assert(entries@.take(k as int) =~= entries@);
        while k > 0
            invariant
                k <= entries@.len(),
                entries@ == self.hub_corrections@,
                correction_for(entries@, self.correction_factor, id@) == correction_for(
                    entries@.take(k as int),
                    self.correction_factor,
                    id@,
                ),
            decreases k,
        {
            assert(entries@.take(k as int).last() == entries@[k - 1]);
            assert(entries@.take(k as int).len() == k);
            if same_id(entries[k - 1].0.as_str(), id) {
                assert(entries@.take(k as int).last().0@ == id@);
                let v = entries[k - 1].1;
                assert(v == entries@[k - 1].1);
                assert(correction_for(entries@.take(k as int), self.correction_factor, id@) == entries@.take(k as int).last().1);
                return v;
            }
            assert(entries@.take(k as int).drop_last() =~= entries@.take(k - 1));
            k = k - 1;
        }
        self.correction_factor
    }

    /// Corrects at node `x` when it is a hub.
    fn hub_correct(&self, mesh: &Mesh, x: &str, e: u64, hops: &mut Vec<RelayHop>) -> (r: u64)
        ensures
            (r, hop_views(final(hops)@)) == hub_stage(
                self.hub_corrections@,
                self.correction_factor,
                mesh.nodes@,
                x@,
                e,
                hop_views(old(hops)@),
            ),
    {
        match mesh.get_node(x) {
            Some(node) => {
                if node.is_hub {
                    let c = self.correction_of(node.id.as_str());
                    let hop = RelayHop::new(node.id.as_str(), e, c);
                    let out = hop.outgoing_error_rate;
                    let ghost before = hop_views(hops@);
                    hops.push(hop);
                    assert(hop_views(hops@) =~= before.push(hop_view(hop)));
                    out
                } else {
                    e
                }
            },
            None => e,
        }
    }

    /// Relay a message along a path of nodes through the mesh.
    ///
    /// At each step the error rate compounds with the link's, and at every
    /// hub the path passes through (the last node included) error correction
    /// is applied.
    pub fn relay_along_path(&self, path: &[String], mesh: &Mesh, initial_error_rate: u64) -> (r: RelayResult)
        ensures
            r.path@ == path@,
            (r.final_error_rate, hop_views(r.hops@), r.total_latency) == relay_outcome(
                self.hub_corrections@,
                self.correction_factor,
                mesh.nodes@,
                mesh.links@,
                id_views(path@),
                initial_error_rate,
            ),
            r.reliability == unit_complement(r.final_error_rate),
            r.delivered == (r.reliability > crate::hub_relay::DELIVERY_RELIABILITY),
    {
        let ghost pv = id_views(path@);
        let router = MeshRouter::new(mesh);
        let mut current: u64 = initial_error_rate;
        let mut hops: Vec<RelayHop> = Vec::new();
        let mut total_latency: u64 = 0;
        let steps = if path.len() == 0 {
            0
        } else {
            path.len() - 1
        };
        let mut i: usize = 0;
        assert(hop_views(hops@) =~= Seq::<(Seq<char>, u64, u64, u64)>::empty());
        while i < steps
            invariant
                router.spec_mesh() == *mesh,
                steps == if path@.len() == 0 { 0 } else { path@.len() - 1 },
                i <= steps,
                pv == id_views(path@),
                (current, hop_views(hops@), total_latency) == relay_prefix(
                    self.hub_corrections@,
                    self.correction_factor,
                    mesh.nodes@,
                    mesh.links@,
                    pv,
                    initial_error_rate,
                    i as nat,
                ),
            decreases steps - i,
        {
            match router.find_link(path[i].as_str(), path[i + 1].as_str()) {
                Some(link) => {
                    current = compound(current, link.error_rate);
                    total_latency = total_latency.saturating_add(link.latency);
                },
                None => {},
            }
            current = self.hub_correct(mesh, path[i].as_str(), current, &mut hops);
            i = i + 1;
        }
        if path.len() > 0 {
            current = self.hub_correct(mesh, path[path.len() - 1].as_str(), current, &mut hops);
        }
        let copied = copy_path(path);
        let reliability = complement(current);
        RelayResult {
            path: copied,
            hops,
            final_error_rate: current,
            reliability,
            total_latency,
            delivered: reliability > DELIVERY_RELIABILITY,
        }
    }

    /// Cumulative error correction: the error left after `num_hubs` hubs,
    /// each correcting by the default factor.
    pub fn cumulative_error_correction(&self, initial_error: u64, num_hubs: usize) -> (r: u64)
        ensures
            r == corrected_times(initial_error, self.correction_factor, num_hubs as nat),
    {
        let c = self.correction_factor;
        let mut e = initial_error;
        let mut n = num_hubs;
        while n > 0 && e > 0 && c > 0
            invariant
                corrected_times(e, c, n as nat) == corrected_times(initial_error, c, num_hubs as nat),
            decreases e,
        {
            proof {
                lemma_corrected_bounds(e, c);
            }
            e = correct(e, c);
            n = n - 1;
        }
        proof {
            lemma_corrected_times_fixed(e, c, n as nat);
        }
        e
    }
}

/// Without correction, or without error, nothing changes.
proof fn lemma_corrected_times_fixed(e: u64, c: u64, n: nat)
    requires
        n == 0 || e == 0 || c == 0,
    ensures
        corrected_times(e, c, n) == e,
    decreases n,
{
    if n > 0 {
        lemma_corrected_bounds(e, c);
        lemma_corrected_times_fixed(corrected(e, c), c, (n - 1) as nat);
    }
}

/// More hubs never leave more error: the error after `n + 1` corrections
/// is at most the error after `n`.
pub proof fn lemma_more_hubs_less_error(e: u64, c: u64, n: nat)
    ensures
        corrected_times(e, c, n + 1) <= corrected_times(e, c, n),
    decreases n,
{
    lemma_corrected_bounds(e, c);
    assert(corrected_times(e, c, n + 1) == corrected_times(corrected(e, c), c, n));
    if n > 0 {
        assert(corrected_times(e, c, n) == corrected_times(corrected(e, c), c, (n - 1) as nat));
        lemma_more_hubs_less_error(corrected(e, c), c, (n - 1) as nat);
    } else {
        assert(corrected_times(corrected(e, c), c, 0) == corrected(e, c));
    }
}

/// Correction never raises the error: after any number of hubs the error is
/// at most where it started.
pub proof fn lemma_correction_never_raises(e: u64, c: u64, n: nat)
    ensures
        corrected_times(e, c, n) <= e,
    decreases n,
{
    lemma_corrected_bounds(e, c);
    if n > 0 {
        lemma_correction_never_raises(corrected(e, c), c, (n - 1) as nat);
    }
}

/// A power of a natural number is a natural number.
proof fn lemma_pow_nonneg(b: int, n: nat)
    requires
        b >= 0,
    ensures
        vstd::arithmetic::power::pow(b, n) >= 0,
    decreases n,
{
    reveal(vstd::arithmetic::power::pow);
    if n > 0 {
        lemma_pow_nonneg(b, (n - 1) as nat);
        let q = vstd::arithmetic::power::pow(b, (n - 1) as nat);
        assert(b * q >= 0) by (nonlinear_arith)
            requires
                b >= 0,
                q >= 0,
        ;
    }
}

/// Correction is exponential: after `n` hubs each keeping the fraction
/// `1 - c` of the error, at most `e * (1 - c)^n` is left (the rounding at
/// each hub only removes more).
pub proof fn lemma_exponential_decay(e: u64, c: u64, n: nat)
    ensures
        corrected_times(e, c, n) * vstd::arithmetic::power::pow(UNIT as int, n) <= e
            * vstd::arithmetic::power::pow(unit_complement(c) as int, n),
    decreases n,
{
    reveal(vstd::arithmetic::power::pow);
    let p = UNIT as int;
    let f = unit_complement(c) as int;
    if n == 0 {
        assert(corrected_times(e, c, n) == e);
    } else {
        let e1 = corrected(e, c);
        lemma_corrected_bounds(e, c);
        lemma_exponential_decay(e1, c, (n - 1) as nat);
        let t = corrected_times(e1, c, (n - 1) as nat);
        assert(corrected_times(e, c, n) == t);
        let a = vstd::arithmetic::power::pow(p, (n - 1) as nat);
        let b = vstd::arithmetic::power::pow(f, (n - 1) as nat);
        lemma_pow_nonneg(p, (n - 1) as nat);
        lemma_pow_nonneg(f, (n - 1) as nat);
        let x = e * f;
        assert(x >= 0) by (nonlinear_arith)
            requires
                x == e * f,
                e >= 0,
                f >= 0,
        ;
        vstd::arithmetic::div_mod::lemma_fundamental_div_mod(x, p);
        vstd::arithmetic::div_mod::lemma_mod_bound(x, p);
        assert(e1 == x / p);
        assert(e1 * p <= e * f) by (nonlinear_arith)
            requires
                x == p * (x / p) + x % p,
                x % p >= 0,
                e1 == x / p,
                x == e * f,
        ;
        assert(t * (p * a) <= e * (f * b)) by (nonlinear_arith)
            requires
                t * a <= e1 * b,
                e1 * p <= e * f,
                p > 0,
                b >= 0,
                t >= 0,
                a >= 0,
        ;
        assert(vstd::arithmetic::power::pow(p, n) == p * a);
        assert(vstd::arithmetic::power::pow(f, n) == f * b);
    }
}

/// No hop leaves more error than it received.
pub open spec fn hops_never_raise(hs: Seq<(Seq<char>, u64, u64, u64)>) -> bool {
    forall|k: int| 0 <= k < hs.len() ==> (#[trigger] hs[k]).2 <= hs[k].1
}

proof fn lemma_hub_stage_never_raises(
    entries: Seq<(String, u64)>,
    default: u64,
    nodes: Seq<MeshNode>,
    x: Seq<char>,
    e: u64,
    hops: Seq<(Seq<char>, u64, u64, u64)>,
)
    requires
        hops_never_raise(hops),
    ensures
        hops_never_raise(hub_stage(entries, default, nodes, x, e, hops).1),
{
    match first_node(nodes, x) {
        Some(n) => if n.is_hub {
            let c = correction_for(entries, default, n.id@);
            lemma_corrected_bounds(e, c);
            let hs = hops.push((n.id@, e, corrected(e, c), c));
            assert forall|k: int| 0 <= k < hs.len() implies (#[trigger] hs[k]).2 <= hs[k].1 by {
                if k < hops.len() {
                    assert(hs[k] == hops[k]);
                }
            }
        },
        None => {},
    }
}

proof fn lemma_relay_prefix_never_raises(
    entries: Seq<(String, u64)>,
    default: u64,
    nodes: Seq<MeshNode>,
    links: Seq<HyphaeLink>,
    path: Seq<Seq<char>>,
    init: u64,
    i: nat,
)
    ensures
        hops_never_raise(relay_prefix(entries, default, nodes, links, path, init, i).1),
    decreases i,
{
    if i > 0 {
        lemma_relay_prefix_never_raises(entries, default, nodes, links, path, init, (i - 1) as nat);
        let prev = relay_prefix(entries, default, nodes, links, path, init, (i - 1) as nat);
        let (e1, lat1) = link_stage(links, path[i - 1], path[i as int], prev.0, prev.2);
        lemma_hub_stage_never_raises(entries, default, nodes, path[i - 1], e1, prev.1);
    }
}

/// Along any path, every correcting hop leaves at most the error it
/// received.
pub proof fn lemma_relay_hops_never_raise(
    entries: Seq<(String, u64)>,
    default: u64,
    nodes: Seq<MeshNode>,
    links: Seq<HyphaeLink>,
    path: Seq<Seq<char>>,
    init: u64,
)
    ensures
        hops_never_raise(relay_outcome(entries, default, nodes, links, path, init).1),
{
    if path.len() > 0 {
        let p = relay_prefix(entries, default, nodes, links, path, init, (path.len() - 1) as nat);
        lemma_relay_prefix_never_raises(entries, default, nodes, links, path, init, (path.len() - 1) as nat);
        lemma_hub_stage_never_raises(entries, default, nodes, path[path.len() - 1], p.0, p.1);
    }
}

/// Every node of the path is a hub that corrects by the default factor.
pub open spec fn default_hubs_only(
    entries: Seq<(String, u64)>,
    default: u64,
    nodes: Seq<MeshNode>,
    path: Seq<Seq<char>>,
) -> bool {
    forall|k: int|
        0 <= k < path.len() ==> match first_node(nodes, #[trigger] path[k]) {
            Some(n) => n.is_hub && correction_for(entries, default, n.id@) == default,
            None => false,
        }
}

/// No step of the path crosses a link that adds error.
pub open spec fn error_free_steps(links: Seq<HyphaeLink>, path: Seq<Seq<char>>) -> bool {
    forall|k: int|
        0 <= k < path.len() - 1 ==> match first_link(links, #[trigger] path[k], path[k + 1]) {
            Some(l) => l.error_rate == 0,
            None => true,
        }
}

/// One more correction is applied after the others.
proof fn lemma_corrected_times_last(e: u64, c: u64, n: nat)
    ensures
        corrected_times(e, c, n + 1) == corrected(corrected_times(e, c, n), c),
    decreases n,
{
    assert(corrected_times(e, c, n + 1) == corrected_times(corrected(e, c), c, n));
    if n > 0 {
        lemma_corrected_times_last(corrected(e, c), c, (n - 1) as nat);
        assert(corrected_times(e, c, n) == corrected_times(corrected(e, c), c, (n - 1) as nat));
    } else {
        assert(corrected_times(corrected(e, c), c, 0) == corrected(e, c));
    }
}

/// A link without error leaves an error rate of at most one unchanged.
proof fn lemma_compounded_error_free(e: u64)
    requires
        e <= UNIT,
    ensures
        compounded(e, 0) == e,
{
    let f = unit_complement(e) as int;
    assert(unit_complement(0) == UNIT);
    vstd::arithmetic::div_mod::lemma_div_multiples_vanish(f, UNIT as int);
}

proof fn lemma_relay_prefix_cumulative(
    entries: Seq<(String, u64)>,
    default: u64,
    nodes: Seq<MeshNode>,
    links: Seq<HyphaeLink>,
    path: Seq<Seq<char>>,
    init: u64,
    i: nat,
)
    requires
        init <= UNIT,
        i < path.len(),
        default_hubs_only(entries, default, nodes, path),
        error_free_steps(links, path),
    ensures
        relay_prefix(entries, default, nodes, links, path, init, i).0 == corrected_times(init, default, i),
    decreases i,
{
    if i > 0 {
        lemma_relay_prefix_cumulative(entries, default, nodes, links, path, init, (i - 1) as nat);
        let prev = relay_prefix(entries, default, nodes, links, path, init, (i - 1) as nat);
        lemma_correction_never_raises(init, default, (i - 1) as nat);
        lemma_compounded_error_free(prev.0);
        let k = i - 1;
        assert(0 <= k < path.len() - 1);
        assert(link_stage(links, path[i - 1], path[i as int], prev.0, prev.2).0 == prev.0);
        lemma_corrected_times_last(init, default, (i - 1) as nat);
    }
}

/// Relaying along a path of hubs that all correct by the default factor,
/// over links that add no error, leaves the error that as many cumulative
/// corrections leave: one correction per node of the path.
pub proof fn lemma_relay_matches_cumulative(
    entries: Seq<(String, u64)>,
    default: u64,
    nodes: Seq<MeshNode>,
    links: Seq<HyphaeLink>,
    path: Seq<Seq<char>>,
    init: u64,
)
    requires
        init <= UNIT,
        default_hubs_only(entries, default, nodes, path),
        error_free_steps(links, path),
    ensures
        relay_outcome(entries, default, nodes, links, path, init).0 == corrected_times(init, default, path.len()),
{
    if path.len() > 0 {
        let n = (path.len() - 1) as nat;
        lemma_relay_prefix_cumulative(entries, default, nodes, links, path, init, n);
        lemma_corrected_times_last(init, default, n);
    }
}

proof fn lemma_relay_prefix_latency(
    entries: Seq<(String, u64)>,
    default: u64,
    nodes: Seq<MeshNode>,
    links: Seq<HyphaeLink>,
    path: Seq<Seq<char>>,
    init: u64,
    i: nat,
)
    requires
        i < path.len(),
    ensures
        relay_prefix(entries, default, nodes, links, path, init, i).2 == path_latency(links, path.take(i as int + 1)),
    decreases i,
{
    if i == 0 {
        assert(path.take(1).len() == 1);
    } else {
        lemma_relay_prefix_latency(entries, default, nodes, links, path, init, (i - 1) as nat);
        let q = path.take(i as int + 1);
        assert(q.drop_last() =~= path.take(i as int));
        assert(q[q.len() - 2] == path[i - 1] && q[q.len() - 1] == path[i as int]);
    }
}

/// Relaying takes the latency of the route along the same path: the total
/// latency of a relay is the summed latency of the first link joining each
/// pair of consecutive nodes (capped at `u64::MAX`), which is the total
/// latency the router gives a route along that path.
pub proof fn lemma_relay_latency_is_path_latency(
    entries: Seq<(String, u64)>,
    default: u64,
    nodes: Seq<MeshNode>,
    links: Seq<HyphaeLink>,
    path: Seq<Seq<char>>,
    init: u64,
)
    ensures
        relay_outcome(entries, default, nodes, links, path, init).2 == path_latency(links, path),
{
    if path.len() > 0 {
        lemma_relay_prefix_latency(entries, default, nodes, links, path, init, (path.len() - 1) as nat);
        assert(path.take(path.len() as int) =~= path);
    }
}

/// Relaying one step further adds that step's latency: the relay along
/// `path` and then to `x` takes the latency of the relay along `path` plus
/// that of the first link joining its last node to `x` (none without such a
/// link), capped at `u64::MAX`.
pub proof fn lemma_relay_latency_adds_step(
    entries: Seq<(String, u64)>,
    default: u64,
    nodes: Seq<MeshNode>,
    links: Seq<HyphaeLink>,
    path: Seq<Seq<char>>,
    x: Seq<char>,
    init: u64,
)
    requires
        path.len() >= 1,
    ensures
        relay_outcome(entries, default, nodes, links, path.push(x), init).2 == ({
            let t = relay_outcome(entries, default, nodes, links, path, init).2;
            let s = match first_link(links, path[path.len() - 1], x) {
                Some(l) => l.latency,
                None => 0,
            };
            if t + s > u64::MAX {
                u64::MAX as int
            } else {
                t + s
            }
        }),
{
    lemma_relay_latency_is_path_latency(entries, default, nodes, links, path, init);
    lemma_relay_latency_is_path_latency(entries, default, nodes, links, path.push(x), init);
    let q = path.push(x);
    assert(q.drop_last() =~= path);
    assert(q[q.len() - 2] == path[path.len() - 1]);
    assert(step_latency(links, path[path.len() - 1], x) == match first_link(links, path[path.len() - 1], x) {
        Some(l) => l.latency,
        None => 0u64,
    });
}

/// A relay without overrides corrects every hub by the default factor.
pub proof fn lemma_no_override_uses_default(default: u64, id: Seq<char>)
    ensures
        correction_for(Seq::empty(), default, id) == default,
{
}

proof fn lemma_first_node_carries_id(nodes: Seq<MeshNode>, x: Seq<char>)
    ensures
        first_node(nodes, x) matches Some(n) ==> n.id@ == x,
    decreases nodes.len(),
{
    if nodes.len() > 0 && nodes[0].id@ != x {
        lemma_first_node_carries_id(nodes.drop_first(), x);
    }
}

/// Every recorded hop was corrected by the hub's own factor: its outgoing
/// error is its incoming error corrected by the factor the relay has for
/// that hub.
pub open spec fn hops_corrected_by_hub(
    entries: Seq<(String, u64)>,
    default: u64,
    hs: Seq<(Seq<char>, u64, u64, u64)>,
) -> bool {
    forall|k: int|
        0 <= k < hs.len() ==> (#[trigger] hs[k]).3 == correction_for(entries, default, hs[k].0) && hs[k].2 == corrected(
            hs[k].1,
            hs[k].3,
        )
}

proof fn lemma_relay_prefix_hops(
    entries: Seq<(String, u64)>,
    default: u64,
    nodes: Seq<MeshNode>,
    links: Seq<HyphaeLink>,
    path: Seq<Seq<char>>,
    init: u64,
    i: nat,
)
    requires
        i <= path.len(),
    ensures
        relay_prefix(entries, default, nodes, links, path, init, i).1.map_values(
            |h: (Seq<char>, u64, u64, u64)| h.0,
        ) == path.take(i as int).filter(
            |x: Seq<char>|
                match first_node(nodes, x) {
                    Some(n) => n.is_hub,
                    None => false,
                },
        ),
        hops_corrected_by_hub(entries, default, relay_prefix(entries, default, nodes, links, path, init, i).1),
    decreases i,
{
    reveal(Seq::filter);
    let pred = |x: Seq<char>|
        match first_node(nodes, x) {
            Some(n) => n.is_hub,
            None => false,
        };
    if i == 0 {
        assert(path.take(0) =~= Seq::<Seq<char>>::empty());
        assert(relay_prefix(entries, default, nodes, links, path, init, 0).1.map_values(
            |h: (Seq<char>, u64, u64, u64)| h.0,
        ) =~= Seq::<Seq<char>>::empty());
    } else {
        lemma_relay_prefix_hops(entries, default, nodes, links, path, init, (i - 1) as nat);
        let prev = relay_prefix(entries, default, nodes, links, path, init, (i - 1) as nat);
        let x = path[i - 1];
        let t = path.take(i as int);
        assert(t.drop_last() =~= path.take(i - 1));
        assert(t.last() == x);
        lemma_first_node_carries_id(nodes, x);
        let (e1, lat1) = link_stage(links, path[i - 1], path[i as int], prev.0, prev.2);
        let hs = relay_prefix(entries, default, nodes, links, path, init, i).1;
        if pred(x) {
            let n = first_node(nodes, x)->0;
            assert(hs == prev.1.push((n.id@, e1, corrected(e1, correction_for(entries, default, n.id@)), correction_for(entries, default, n.id@))));
            assert(hs.map_values(|h: (Seq<char>, u64, u64, u64)| h.0) =~= prev.1.map_values(
                |h: (Seq<char>, u64, u64, u64)| h.0,
            ).push(x));
            assert forall|k: int| 0 <= k < hs.len() implies (#[trigger] hs[k]).3 == correction_for(entries, default, hs[k].0)
                && hs[k].2 == corrected(hs[k].1, hs[k].3) by {
                if k < prev.1.len() {
                    assert(hs[k] == prev.1[k]);
                }
            }
        } else {
            assert(hs == prev.1);
        }
    }
}

/// A relay records one hop at each hub the path passes through, in path
/// order, and nowhere else; and every hop corrects by that hub's factor.
pub proof fn lemma_relay_hops_are_the_path_hubs(
    entries: Seq<(String, u64)>,
    default: u64,
    nodes: Seq<MeshNode>,
    links: Seq<HyphaeLink>,
    path: Seq<Seq<char>>,
    init: u64,
)
    ensures
        relay_outcome(entries, default, nodes, links, path, init).1.map_values(|h: (Seq<char>, u64, u64, u64)| h.0)
            == path.filter(
            |x: Seq<char>|
                match first_node(nodes, x) {
                    Some(n) => n.is_hub,
                    None => false,
                },
        ),
        hops_corrected_by_hub(entries, default, relay_outcome(entries, default, nodes, links, path, init).1),
{
    reveal(Seq::filter);
    let pred = |x: Seq<char>|
        match first_node(nodes, x) {
            Some(n) => n.is_hub,
            None => false,
        };
    if path.len() == 0 {
        assert(relay_outcome(entries, default, nodes, links, path, init).1.map_values(
            |h: (Seq<char>, u64, u64, u64)| h.0,
        ) =~= Seq::<Seq<char>>::empty());
    } else {
        let m = (path.len() - 1) as nat;
        lemma_relay_prefix_hops(entries, default, nodes, links, path, init, m);
        let prev = relay_prefix(entries, default, nodes, links, path, init, m);
        let x = path[path.len() - 1];
        assert(path.drop_last() =~= path.take(m as int));
        assert(path.last() == x);
        lemma_first_node_carries_id(nodes, x);
        let hs = relay_outcome(entries, default, nodes, links, path, init).1;
        if pred(x) {
            let n = first_node(nodes, x)->0;
            assert(hs == prev.1.push((n.id@, prev.0, corrected(prev.0, correction_for(entries, default, n.id@)), correction_for(entries, default, n.id@))));
            assert(hs.map_values(|h: (Seq<char>, u64, u64, u64)| h.0) =~= prev.1.map_values(
                |h: (Seq<char>, u64, u64, u64)| h.0,
            ).push(x));
            assert forall|k: int| 0 <= k < hs.len() implies (#[trigger] hs[k]).3 == correction_for(entries, default, hs[k].0)
                && hs[k].2 == corrected(hs[k].1, hs[k].3) by {
                if k < prev.1.len() {
                    assert(hs[k] == prev.1[k]);
                }
            }
        } else {
            assert(hs == prev.1);
        }
    }
}

/// A hub's correction is its latest override: the factor of the last entry
/// naming it, or the default when no entry names it.
pub proof fn lemma_correction_is_latest_override(entries: Seq<(String, u64)>, default: u64, id: Seq<char>)
    ensures
        (forall|k: int| 0 <= k < entries.len() ==> (#[trigger] entries[k]).0@ != id) ==> correction_for(
            entries,
            default,
            id,
        ) == default,
        forall|k: int|
            0 <= k < entries.len() && (#[trigger] entries[k]).0@ == id && (forall|j: int|
                k < j < entries.len() ==> (#[trigger] entries[j]).0@ != id) ==> correction_for(entries, default, id)
                == entries[k].1,
    decreases entries.len(),
{
    if entries.len() > 0 {
        let rest = entries.drop_last();
        lemma_correction_is_latest_override(rest, default, id);
        let n = entries.len() - 1;
        if entries[n].0@ != id {
            assert forall|k: int|
                0 <= k < entries.len() && (#[trigger] entries[k]).0@ == id && (forall|j: int|
                    k < j < entries.len() ==> (#[trigger] entries[j]).0@ != id) implies correction_for(entries, default, id)
                == entries[k].1 by {
                assert(entries[k] == rest[k]);
                assert forall|j: int| k < j < rest.len() implies (#[trigger] rest[j]).0@ != id by {
                    assert(rest[j] == entries[j]);
                }
            }
            if forall|k: int| 0 <= k < entries.len() ==> (#[trigger] entries[k]).0@ != id {
                assert forall|k: int| 0 <= k < rest.len() implies (#[trigger] rest[k]).0@ != id by {
                    assert(rest[k] == entries[k]);
                }
            }
        } else {
            assert forall|k: int|
                0 <= k < entries.len() && (#[trigger] entries[k]).0@ == id && (forall|j: int|
                    k < j < entries.len() ==> (#[trigger] entries[j]).0@ != id) implies correction_for(entries, default, id)
                == entries[k].1 by {
                if k < n {
                    assert(entries[n].0@ == id);
                }
            }
        }
    }
}

fn copy_path(path: &[String]) -> (r: Vec<String>)
    ensures
        r@ == path@,
{
    let mut r: Vec<String> = Vec::new();
    let mut i: usize = 0;
    while i < path.len()
        invariant
            i <= path@.len(),
            r@ == path@.take(i as int),
        decreases path@.len() - i,
    {
        r.push(path[i].clone());
        i = i + 1;
        assert(r@ =~= path@.take(i as int));
    }
    assert(path@.take(i as int) =~= path@);
    r
}

impl Default for HubRelay {
    fn default() -> (r: Self)
        ensures
            r.correction_factor == 500_000_000_000_000_000,
            r.hub_corrections@.len() == 0,
    {
        Self::new(500_000_000_000_000_000)
    }
}

} // verus!
