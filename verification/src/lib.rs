use vstd::prelude::*;

pub mod account_manager;
pub mod amount;
pub mod common;
pub mod error;
pub mod laws;
pub mod rows;

use crate::account_manager::{
    collect_states_spec, empty_lane, lane_apply, lane_of, lemma_collect_states_wf, manager_wf,
    AccountManager, AccountView, ClientState, LaneView,
};
use crate::amount::{first_byte, lemma_first_byte};
use crate::common::NEWLINE_BYTE;
use crate::rows::{find_byte, header_bytes, parse_row, push_header, push_row, render_row, row_of};

verus! {

/// Command line arguments holder.
pub struct Args {
    /// Path of the transaction input, one comma-separated record per
    /// line after a header line.
    pub transactions_file: String,
}

/// The given number of empty lanes.
pub open spec fn empty_lanes(n: int) -> Seq<LaneView> {
    Seq::new(n as nat, |i: int| empty_lane())
}

/// Routes one input line: a line that spells no transaction is
/// skipped; a transaction is applied to the lane its client routes
/// to, and a rejected transaction leaves balances untouched.
pub open spec fn feed_line(lanes: Seq<LaneView>, line: Seq<u8>) -> Seq<LaneView> {
    match row_of(line) {
        None => lanes,
        Some(t) => {
            let lane = lane_of(t.client, lanes.len() as int);
            lanes.update(lane, lane_apply(lanes[lane], t).0)
        },
    }
}

/// Routes every line of the input body, in order.
pub open spec fn feed_lines(lanes: Seq<LaneView>, s: Seq<u8>) -> Seq<LaneView>
    decreases s.len(),
{
    if s.len() == 0 {
        lanes
    } else {
        let d = first_byte(s, NEWLINE_BYTE) as int;
        let line = s.subrange(0, d);
        let rest = if d + 1 <= s.len() {
            s.subrange(d + 1, s.len() as int)
        } else {
            Seq::empty()
        };
        feed_lines(feed_line(lanes, line), rest)
    }
}

/// The rows for the collected accounts, in order.
pub open spec fn render_rows(states: Seq<AccountView>) -> Seq<u8>
    decreases states.len(),
{
    if states.len() == 0 {
        Seq::empty()
    } else {
        let last = states.last();
        render_rows(states.drop_last()) + render_row(
            last.client,
            last.available,
            last.held,
            last.locked,
        )
    }
}

/// The full output for an input text: the input's first line is its
/// header and is skipped; every further line is routed through the
/// lanes; and the collected accounts follow the output header, lane
/// by lane in routing order, each lane in first-appearance order.
pub open spec fn run_spec(input: Seq<u8>, num_workers: int) -> Seq<u8> {
    let d = first_byte(input, NEWLINE_BYTE) as int;
    let body = if d + 1 <= input.len() {
        input.subrange(d + 1, input.len() as int)
    } else {
        Seq::empty()
    };
    let lanes = feed_lines(empty_lanes(num_workers), body);
    header_bytes() + render_rows(collect_states_spec(lanes))
}

/// Runs the whole computation on one input text, exactly as
/// `run_spec` gives. Rejected transactions and malformed rows are
/// dropped and processing continues with the next row.
pub fn run_on_input(input: &[u8], num_workers: usize) -> (out: Vec<u8>)
    requires
        1 <= num_workers < 65535,
    ensures
        out@ == run_spec(input@, num_workers as int),
{
    let n = input.len();
    let mut manager = AccountManager::new(num_workers);
    proof {
        assert(manager@ =~= empty_lanes(num_workers as int));
    }
    let d0 = find_byte(input, NEWLINE_BYTE);
    proof {
        lemma_first_byte(input@, NEWLINE_BYTE);
    }
    let mut pos: usize = if d0 == n {
        n
    } else {
        d0 + 1
    };
    let ghost body = if d0 + 1 <= n {
        input@.subrange(d0 as int + 1, n as int)
    } else {
        Seq::<u8>::empty()
    };
    proof {
        assert(input@.subrange(pos as int, n as int) =~= body);
    }
    while pos < n
        invariant
            n == input@.len(),
            pos <= n,
            manager_wf(manager@),
            manager@.len() == num_workers,
            1 <= num_workers < 65535,
            feed_lines(manager@, input@.subrange(pos as int, n as int)) == feed_lines(
                empty_lanes(num_workers as int),
                body,
            ),
        decreases n - pos,
    {
        let ghost lanes_pre = manager@;
        let ghost rem_ghost = input@.subrange(pos as int, n as int);
        let rem = &input[pos..n];
        let d = find_byte(rem, NEWLINE_BYTE);
        proof {
            lemma_first_byte(rem@, NEWLINE_BYTE);
        }
        let line = &rem[0..d];
        match parse_row(line) {
            Some(t) => {
                // A rejected transaction is recoverable: it is dropped
                // and the run continues with the next row.
                let _ = manager.process_transaction(t);
            },
            None => {},
        }
        let next = if d == rem.len() {
            n
        } else {
            pos + d + 1
        };
        proof {
            assert(rem_ghost.len() > 0);
            assert(first_byte(rem_ghost, NEWLINE_BYTE) == d as nat);
            assert(rem_ghost.subrange(0, d as int) == line@);
            assert(manager@ == feed_line(lanes_pre, line@));
            let rest = if d as int + 1 <= rem_ghost.len() {
                rem_ghost.subrange(d as int + 1, rem_ghost.len() as int)
            } else {
                Seq::<u8>::empty()
            };
            assert(feed_lines(lanes_pre, rem_ghost) == feed_lines(manager@, rest));
            assert(input@.subrange(next as int, n as int) =~= rest);
        }
        pos = next;
    }
    proof {
        assert(input@.subrange(n as int, n as int) =~= Seq::<u8>::empty());
        assert(manager@ == feed_lines(empty_lanes(num_workers as int), body));
        lemma_collect_states_wf(manager@);
    }
    let ghost lanes_final = manager@;
    let states = manager.collect_account_states();
    let ghost views = states@.map_values(|s: ClientState| s@);
    let mut out: Vec<u8> = Vec::new();
    push_header(&mut out);
    let mut i: usize = 0;
    while i < states.len()
        invariant
            views == states@.map_values(|s: ClientState| s@),
            views == collect_states_spec(lanes_final),
            forall|j: int| 0 <= j < views.len() ==> (#[trigger] views[j]).wf(),
            i <= states@.len(),
            views.len() == states@.len(),
            out@ == header_bytes() + render_rows(views.take(i as int)),
        decreases states@.len() - i,
    {
        let state = &states[i];
        proof {
            assert(views[i as int] == states@[i as int]@);
            assert(views[i as int].wf());
            assert(views.take(i as int + 1).drop_last() =~= views.take(i as int));
            assert(views.take(i as int + 1).last() == views[i as int]);
        }
        push_row(&mut out, state.client, state.available, state.held, state.locked);
        i = i + 1;
    }
    proof {
        assert(views.take(states@.len() as int) =~= views);
    }
    out
}

} // verus!
