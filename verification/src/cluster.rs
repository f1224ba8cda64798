//! The cluster side: builder discovery rows, builder selection, and the
//! client's decision on a remote compile's outcome.
//!
//! The coordinator registry stores one row per builder; clients pick a
//! builder at random among the candidates and fall back to a local compile
//! whenever the remote path fails.

use vstd::prelude::*;
use crate::task::{BuildError, OutputInfo};
use crate::wire::CompileResponse;

verus! {

/// One registry row: a builder's identity, address, offered toolchains, and
/// when it last reported in.
#[derive(Clone, Debug)]
pub struct BuilderInfo {
    pub guid: String,
    pub endpoint: String,
    pub name: String,
    pub version: String,
    pub toolchains: Vec<String>,
    pub last_heartbeat: u64,
}

/// Relies on rand::random: an arbitrary machine word; nothing is promised
/// of its value.
#[verifier::external_body]
fn random_index() -> usize {
    rand::random::<u64>() as usize
}

/// The rows offering at least one toolchain, in order.
pub open spec fn offering_spec(rows: Seq<BuilderInfo>) -> Seq<BuilderInfo>
    decreases rows.len(),
{
    if rows.len() == 0 {
        Seq::empty()
    } else if rows[0].toolchains@.len() > 0 {
        seq![rows[0]] + offering_spec(rows.skip(1))
    } else {
        offering_spec(rows.skip(1))
    }
}

/// The snoc step of the offering filter.
proof fn lemma_offering_snoc(rows: Seq<BuilderInfo>, i: int)
    requires
        0 <= i < rows.len(),
    ensures
        offering_spec(rows.take(i + 1)) == (if rows[i].toolchains@.len() > 0 {
            offering_spec(rows.take(i)).push(rows[i])
        } else {
            offering_spec(rows.take(i))
        }),
    decreases i,
{
    let t1 = rows.take(i + 1);
    let t0 = rows.take(i);
    if i == 0 {
        assert(t1.skip(1) =~= Seq::<BuilderInfo>::empty());
        assert(t0 =~= Seq::<BuilderInfo>::empty());
        if rows[0].toolchains@.len() > 0 {
            assert(seq![rows[0]] + Seq::<BuilderInfo>::empty() =~= offering_spec(t0).push(
                rows[0],
            ));
        }
    } else {
        lemma_offering_snoc(rows.skip(1), i - 1);
        assert(t1.skip(1) =~= rows.skip(1).take(i));
        assert(t0.skip(1) =~= rows.skip(1).take(i - 1));
        assert(t1[0] == rows[0]);
        assert(t0[0] == rows[0]);
        assert(rows.skip(1)[i - 1] == rows[i]);
        if rows[i].toolchains@.len() > 0 && rows[0].toolchains@.len() > 0 {
            assert(seq![rows[0]] + offering_spec(rows.skip(1).take(i - 1)).push(rows[i]) =~= (
            seq![rows[0]] + offering_spec(rows.skip(1).take(i - 1))).push(rows[i]));
        }
    }
}

/// Keep the builders that offer at least one toolchain.
pub fn offering_builders(rows: Vec<BuilderInfo>) -> (r: Vec<BuilderInfo>)
    ensures
        r@ == offering_spec(rows@),
{
    let ghost orig = rows@;
    let mut rest = rows;
    let mut r: Vec<BuilderInfo> = Vec::new();
    let ghost mut k: int = 0;
    proof {
        assert(orig.take(0) =~= Seq::<BuilderInfo>::empty());
        assert(rest@ =~= orig.skip(0));
        assert(r@ =~= offering_spec(orig.take(0)));
    }
    while rest.len() > 0
        invariant
            0 <= k <= orig.len(),
            rest@ == orig.skip(k),
            r@ == offering_spec(orig.take(k)),
        decreases rest@.len(),
    {
        let ghost pre = rest@;
        let row = rest.remove(0);
        proof {
            assert(row == orig[k]);
            assert(pre.remove(0) =~= orig.skip(k + 1));
            lemma_offering_snoc(orig, k);
        }
        if row.toolchains.len() > 0 {
            r.push(row);
        }
        proof {
            k = k + 1;
        }
    }
    proof {
        assert(orig.take(k) =~= orig);
    }
    r
}

/// Pick a builder uniformly at random: none exactly when the list is empty,
/// and always one of the candidates.
pub fn get_random_builder<'a>(builders: &'a Vec<BuilderInfo>) -> (r: Option<&'a BuilderInfo>)
    ensures
        r is Some <==> builders@.len() > 0,
        match r {
            Some(b) => exists|i: int| 0 <= i < builders@.len() && *b == builders@[i],
            None => true,
        },
{
    let n = builders.len();
    if n > 0 {
        let i = random_index() % n;
        Some(&builders[i])
    } else {
        None
    }
}

/// A registry row is live while its last heartbeat is no older than three
/// reporting intervals.
pub open spec fn is_live(row: BuilderInfo, now: u64, interval: u64) -> bool {
    row.last_heartbeat + 3 * interval >= now
}

/// The live rows of the registry, in order.
pub open spec fn live_spec(rows: Seq<BuilderInfo>, now: u64, interval: u64) -> Seq<BuilderInfo>
    decreases rows.len(),
{
    if rows.len() == 0 {
        Seq::empty()
    } else if is_live(rows[0], now, interval) {
        seq![rows[0]] + live_spec(rows.skip(1), now, interval)
    } else {
        live_spec(rows.skip(1), now, interval)
    }
}

/// The snoc step of the liveness filter.
proof fn lemma_live_snoc(rows: Seq<BuilderInfo>, now: u64, interval: u64, i: int)
    requires
        0 <= i < rows.len(),
    ensures
        live_spec(rows.take(i + 1), now, interval) == (if is_live(rows[i], now, interval) {
            live_spec(rows.take(i), now, interval).push(rows[i])
        } else {
            live_spec(rows.take(i), now, interval)
        }),
    decreases i,
{
    let t1 = rows.take(i + 1);
    let t0 = rows.take(i);
    if i == 0 {
        assert(t1.skip(1) =~= Seq::<BuilderInfo>::empty());
        assert(t0 =~= Seq::<BuilderInfo>::empty());
        if is_live(rows[0], now, interval) {
            assert(seq![rows[0]] + Seq::<BuilderInfo>::empty() =~= live_spec(
                t0,
                now,
                interval,
            ).push(rows[0]));
        }
    } else {
        lemma_live_snoc(rows.skip(1), now, interval, i - 1);
        assert(t1.skip(1) =~= rows.skip(1).take(i));
        assert(t0.skip(1) =~= rows.skip(1).take(i - 1));
        assert(t1[0] == rows[0]);
        assert(t0[0] == rows[0]);
        assert(rows.skip(1)[i - 1] == rows[i]);
        if is_live(rows[i], now, interval) && is_live(rows[0], now, interval) {
            assert(seq![rows[0]] + live_spec(rows.skip(1).take(i - 1), now, interval).push(
                rows[i],
            ) =~= (seq![rows[0]] + live_spec(rows.skip(1).take(i - 1), now, interval)).push(
                rows[i],
            ));
        }
    }
}

/// The coordinator's answer to a discovery query: exactly the rows whose
/// heartbeat has not expired, in registration order.
pub fn live_builders(rows: Vec<BuilderInfo>, now: u64, interval: u64) -> (r: Vec<BuilderInfo>)
    ensures
        r@ == live_spec(rows@, now, interval),
{
    let ghost orig = rows@;
    let mut rest = rows;
    let mut r: Vec<BuilderInfo> = Vec::new();
    let ghost mut k: int = 0;
    proof {
        assert(orig.take(0) =~= Seq::<BuilderInfo>::empty());
        assert(rest@ =~= orig.skip(0));
        assert(r@ =~= live_spec(orig.take(0), now, interval));
    }
    while rest.len() > 0
        invariant
            0 <= k <= orig.len(),
            rest@ == orig.skip(k),
            r@ == live_spec(orig.take(k), now, interval),
        decreases rest@.len(),
    {
        let ghost pre = rest@;
        let row = rest.remove(0);
        proof {
            assert(row == orig[k]);
            assert(pre.remove(0) =~= orig.skip(k + 1));
            lemma_live_snoc(orig, now, interval, k);
        }
        let live = {
            let h3 = row.last_heartbeat as u128;
            let w = (interval as u128) * 3;
            h3 + w >= now as u128
        };
        proof {
            assert(live == is_live(row, now, interval));
        }
        if live {
            r.push(row);
        }
        proof {
            k = k + 1;
        }
    }
    proof {
        assert(orig.take(k) =~= orig);
    }
    r
}

/// The client's reading of a remote compile's outcome: the artifact on
/// success, and a local fallback on a transport error or a builder-reported
/// error — a remote failure never aborts the task.
pub fn remote_outcome(resp: Result<CompileResponse, BuildError>) -> (r: Option<
    (OutputInfo, Vec<u8>),
>)
    ensures
        match resp {
            Ok(CompileResponse::Success(o, artifact)) => r == Some((o, artifact)),
            Ok(CompileResponse::Error(_)) => r is None,
            Err(_) => r is None,
        },
{
    match resp {
        Ok(CompileResponse::Success(o, artifact)) => Some((o, artifact)),
        Ok(CompileResponse::Error(_)) => None,
        Err(_) => None,
    }
}

} // verus!
