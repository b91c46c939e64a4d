//! The reconciliation driver: parses the two block streams and interleaves
//! sequencer and DA ingestion, re-aligning the sequencer on a mismatch and
//! rolling both streams back on a REORG directive.

use vstd::prelude::*;

use crate::codec::{dec_val, matches_at, num_end, parse_byte, parse_u64};
use crate::hashes::leaf_digest;
use crate::node::{Node, StateType};
use crate::state_machine::LeavesModel;
use crate::NodeError;

verus! {

// -------------------------------------------------------------- the grammar

/// An ASCII whitespace byte: tab, line feed, form feed, carriage return or
/// space.
pub open spec fn is_ws(b: u8) -> bool {
    b == 9 || b == 10 || b == 12 || b == 13 || b == 32
}

/// Where the whitespace run starting at `i` ends: the first index at or
/// after `i` past the end or holding a non-whitespace byte.
pub open spec fn ws_end(s: Seq<u8>, i: int) -> int
    decreases s.len() - i,
{
    if 0 <= i < s.len() && is_ws(s[i]) {
        ws_end(s, i + 1)
    } else {
        i
    }
}

proof fn lemma_ws_end_unique(s: Seq<u8>, i: int, j: int)
    requires
        0 <= i <= j <= s.len(),
        forall|q: int| i <= q < j ==> is_ws(#[trigger] s[q]),
        j == s.len() || !is_ws(s[j]),
    ensures
        ws_end(s, i) == j,
    decreases j - i,
{
    if i < j {
        lemma_ws_end_unique(s, i + 1, j);
    }
}

/// The batch a line spells from position `i`, if any: one or more pairs
/// joined by exactly `, `, each pair a decimal key in 0..=255, one ASCII
/// whitespace run, and a decimal u64 value. Decimals may carry leading
/// zeros; an oversized number, a missing part, or any other byte makes the
/// line malformed.
pub open spec fn parse_line_from(s: Seq<u8>, i: int) -> Option<Seq<(u8, u64)>>
    decreases s.len() - i,
{
    let ke = num_end(s, i);
    let we = ws_end(s, ke);
    let ve = num_end(s, we);
    if !(i < ke && ke < we && we < ve && ve <= s.len()) {
        None
    } else if dec_val(s.subrange(i, ke)) > 255 || dec_val(s.subrange(we, ve)) > u64::MAX as int {
        None
    } else {
        let p = (dec_val(s.subrange(i, ke)) as u8, dec_val(s.subrange(we, ve)) as u64);
        if ve == s.len() {
            Some(seq![p])
        } else if ve + 2 <= s.len() && s[ve] == 44 && s[ve + 1] == 32 {
            match parse_line_from(s, ve + 2) {
                Some(rest) => Some(seq![p] + rest),
                None => None,
            }
        } else {
            None
        }
    }
}

/// The batch a whole line spells, if any.
pub open spec fn parse_line_spec(s: Seq<u8>) -> Option<Seq<(u8, u64)>> {
    parse_line_from(s, 0)
}

/// The depth a REORG directive spells, if any: the word `REORG`, one ASCII
/// whitespace run, and a decimal depth of at least 1, ending the line.
pub open spec fn parse_reorg_spec(s: Seq<u8>) -> Option<u64> {
    if s.len() >= 5 && s.subrange(0, 5) == seq![82u8, 69u8, 79u8, 82u8, 71u8] {
        let we = ws_end(s, 5);
        let ne = num_end(s, we);
        if 5 < we && we < ne && ne == s.len() && 1 <= dec_val(s.subrange(we, ne)) && dec_val(
            s.subrange(we, ne),
        ) <= u64::MAX as int {
            Some(dec_val(s.subrange(we, ne)) as u64)
        } else {
            None
        }
    } else {
        None
    }
}

/// The line spells a non-empty batch.
pub open spec fn well_formed_line(s: Seq<u8>) -> bool {
    parse_line_spec(s) is Some
}

/// The line spells a REORG directive.
pub open spec fn well_formed_reorg(s: Seq<u8>) -> bool {
    parse_reorg_spec(s) is Some
}

/// A line the DA stream accepts: a batch or a REORG directive.
pub open spec fn well_formed_da_line(s: Seq<u8>) -> bool {
    well_formed_line(s) || well_formed_reorg(s)
}

/// Skips the whitespace run starting at `i`.
fn skip_ws(line: &Vec<u8>, i: usize) -> (j: usize)
    requires
        i <= line@.len(),
    ensures
        j as int == ws_end(line@, i as int),
        i <= j <= line@.len(),
{
    let n = line.len();
    let mut j: usize = i;
    loop
        invariant
            i <= j <= n,
            n == line@.len(),
            forall|q: int| i <= q < j ==> is_ws(#[trigger] line@[q]),
        decreases n - j,
    {
        if j < n {
            let b = line[j];
            if b == 9 || b == 10 || b == 12 || b == 13 || b == 32 {
                j += 1;
                continue;
            }
        }
        proof {
            lemma_ws_end_unique(line@, i as int, j as int);
        }
        return j;
    }
}

/// Parses a batch line into its (key, value) pairs: exactly the lines that
/// `parse_line_spec` accepts, with exactly its result.
pub fn get_state_changes(line: &Vec<u8>) -> (r: Result<Vec<(u8, u64)>, NodeError>)
    ensures
        r matches Err(e) ==> e == NodeError::Parse && parse_line_spec(line@) is None,
        r matches Ok(v) ==> parse_line_spec(line@) == Some(v@) && v@.len() >= 1,
        parse_line_spec(line@) matches Some(ps) ==> (r matches Ok(v) && v@ == ps),
{
    let n = line.len();
    let mut out: Vec<(u8, u64)> = Vec::new();
    let mut pos: usize = 0;
    proof {
        if parse_line_from(line@, 0) is Some {
            let rest = parse_line_from(line@, 0).unwrap();
            assert(out@ + rest =~= rest);
        }
    }
    loop
        invariant
            n == line@.len(),
            pos <= n,
            parse_line_from(line@, pos as int) matches Some(rest) ==> parse_line_spec(line@)
                == Some(out@ + rest),
            parse_line_from(line@, pos as int) is None ==> parse_line_spec(line@) is None,
        decreases n - pos,
    {
        let ghost prev_pos = pos as int;
        let ghost prev_out = out@;
        let rk = parse_u64(line, pos);
        let key64: u64;
        match rk {
            Some(p) => {
                key64 = p.0;
                pos = p.1;
            },
            None => {
                proof {
                    assert(parse_line_from(line@, prev_pos) is None);
                }
                return Err(NodeError::Parse);
            },
        }
        if key64 > 255 {
            proof {
                assert(parse_line_from(line@, prev_pos) is None);
            }
            return Err(NodeError::Parse);
        }
        let ghost ke = pos as int;
        let ws_to = skip_ws(line, pos);
        if ws_to == pos {
            proof {
                assert(parse_line_from(line@, prev_pos) is None);
            }
            return Err(NodeError::Parse);
        }
        pos = ws_to;
        let ghost we = pos as int;
        let rv = parse_u64(line, pos);
        let value: u64;
        match rv {
            Some(p) => {
                value = p.0;
                pos = p.1;
            },
            None => {
                proof {
                    assert(parse_line_from(line@, prev_pos) is None);
                }
                return Err(NodeError::Parse);
            },
        }
        let ghost ve = pos as int;
        out.push((key64 as u8, value));
        proof {
            assert(ke == num_end(line@, prev_pos));
            assert(we == ws_end(line@, ke));
            assert(ve == num_end(line@, we));
            assert((dec_val(line@.subrange(prev_pos, ke)) as u8, dec_val(
                line@.subrange(we, ve),
            ) as u64) == (key64 as u8, value));
        }
        if pos == n {
            proof {
                assert(parse_line_from(line@, prev_pos) == Some(seq![(key64 as u8, value)]));
                assert(prev_out + seq![(key64 as u8, value)] =~= out@);
            }
            return Ok(out);
        }
        // More pairs follow: expect the exact `, ` separator.
        let rc = parse_byte(line, pos, 44);
        match rc {
            Some(j) => {
                pos = j;
            },
            None => {
                proof {
                    assert(parse_line_from(line@, prev_pos) is None);
                }
                return Err(NodeError::Parse);
            },
        }
        let rs2 = parse_byte(line, pos, 32);
        match rs2 {
            Some(j) => {
                pos = j;
            },
            None => {
                proof {
                    assert(line@[ve] == 44);
                    assert(parse_line_from(line@, prev_pos) is None);
                }
                return Err(NodeError::Parse);
            },
        }
        proof {
            assert(line@[ve] == 44 && line@[ve + 1] == 32 && ve + 2 <= n);
            if parse_line_from(line@, pos as int) is Some {
                let rest = parse_line_from(line@, pos as int).unwrap();
                assert(parse_line_from(line@, prev_pos) == Some(
                    seq![(key64 as u8, value)] + rest,
                ));
                assert(prev_out + (seq![(key64 as u8, value)] + rest) =~= out@ + rest);
            } else {
                assert(parse_line_from(line@, prev_pos) is None);
            }
        }
    }
}

/// One line of the DA stream: a batch of state changes, or a REORG
/// directive.
pub enum DaLine {
    Batch(Vec<(u8, u64)>),
    Reorg(u64),
}

/// Classifies and parses one DA line: exactly the lines that
/// `parse_line_spec` or `parse_reorg_spec` accept, with exactly their
/// results. A batch line starts with a digit and a directive with `R`, so no
/// line is both.
pub fn parse_da_line(line: &Vec<u8>) -> (r: Result<DaLine, NodeError>)
    ensures
        r matches Err(e) ==> e == NodeError::Parse && parse_line_spec(line@) is None
            && parse_reorg_spec(line@) is None,
        r matches Ok(l) ==> (l matches DaLine::Batch(v) ==> parse_line_spec(line@) == Some(v@)
            && v@.len() >= 1 && parse_reorg_spec(line@) is None),
        r matches Ok(l) ==> (l matches DaLine::Reorg(n) ==> parse_reorg_spec(line@) == Some(n) && n
            >= 1 && parse_line_spec(line@) is None),
        parse_line_spec(line@) matches Some(ps) ==> (r matches Ok(l) && l matches DaLine::Batch(v)
            && v@ == ps),
        parse_reorg_spec(line@) matches Some(n) ==> (r matches Ok(l) && l == DaLine::Reorg(n)),
{
    let n = line.len();
    if n >= 1 && line[0] == 82 {
        proof {
            // A directive cannot be a batch: its first byte is no digit.
            crate::codec::lemma_num_end_unique(line@, 0, 0);
            assert(parse_line_spec(line@) is None);
        }
        let lit: Vec<u8> = vec![82u8, 69u8, 79u8, 82u8, 71u8];
        let r0 = crate::codec::parse_lit(line, 0, &lit);
        let mut pos: usize;
        match r0 {
            Some(j) => {
                pos = j;
            },
            None => {
                proof {
                    if line@.len() >= 5 && line@.subrange(0, 5) == seq![
                        82u8,
                        69u8,
                        79u8,
                        82u8,
                        71u8,
                    ] {
                        assert(matches_at(line@, 0, lit@)) by {
                            assert(lit@ =~= seq![82u8, 69u8, 79u8, 82u8, 71u8]);
                        }
                    }
                }
                return Err(NodeError::Parse);
            },
        }
        proof {
            assert(line@.subrange(0, 5) =~= lit@);
        }
        let ws_to = skip_ws(line, pos);
        if ws_to == pos {
            return Err(NodeError::Parse);
        }
        pos = ws_to;
        let ghost we = pos as int;
        let rn = parse_u64(line, pos);
        let depth: u64;
        match rn {
            Some(p) => {
                depth = p.0;
                pos = p.1;
            },
            None => {
                return Err(NodeError::Parse);
            },
        }
        if depth == 0 || pos != n {
            return Err(NodeError::Parse);
        }
        proof {
            assert(parse_reorg_spec(line@) == Some(depth));
        }
        Ok(DaLine::Reorg(depth))
    } else {
        proof {
            // Not a directive: the line is empty or starts with a byte other
            // than `R`.
            if line@.len() >= 5 {
                assert(line@.subrange(0, 5)[0] == line@[0]);
                assert(line@.subrange(0, 5) != seq![82u8, 69u8, 79u8, 82u8, 71u8]);
            }
            assert(parse_reorg_spec(line@) is None);
        }
        match get_state_changes(line) {
            Ok(v) => Ok(DaLine::Batch(v)),
            Err(e) => Err(e),
        }
    }
}

// ----------------------------------------------------- state-change batches

/// One state change applied to a leaf table: the slot takes the digest of
/// the value, the value column takes the value.
pub open spec fn apply_one(m: LeavesModel, key: u8, value: u64) -> LeavesModel {
    LeavesModel {
        items: m.items.update(key as int, leaf_digest(value)),
        values: m.values.update(key as int, value),
    }
}

/// A batch of state changes applied in order.
pub open spec fn apply_changes(m: LeavesModel, ps: Seq<(u8, u64)>) -> LeavesModel
    decreases ps.len(),
{
    if ps.len() == 0 {
        m
    } else {
        apply_changes(apply_one(m, ps[0].0, ps[0].1), ps.drop_first())
    }
}

proof fn lemma_apply_changes_push(m: LeavesModel, ps: Seq<(u8, u64)>, p: (u8, u64))
    ensures
        apply_changes(m, ps.push(p)) == apply_one(apply_changes(m, ps), p.0, p.1),
    decreases ps.len(),
{
    if ps.len() == 0 {
        assert(ps.push(p)[0] == p);
        assert(ps.push(p).drop_first() =~= Seq::<(u8, u64)>::empty());
        assert(apply_changes(apply_one(m, p.0, p.1), Seq::<(u8, u64)>::empty()) == apply_one(
            m,
            p.0,
            p.1,
        ));
        assert(apply_changes(m, ps.push(p)) =~= apply_one(apply_changes(m, ps), p.0, p.1));
    } else {
        lemma_apply_changes_push(apply_one(m, ps[0].0, ps[0].1), ps.drop_first(), p);
        assert(ps.push(p)[0] == ps[0]);
        assert(ps.push(p).drop_first() =~= ps.drop_first().push(p));
        assert(apply_changes(m, ps.push(p)) =~= apply_one(apply_changes(m, ps), p.0, p.1));
    }
}

/// A sequence of batches applied in order.
pub open spec fn apply_batches(m: LeavesModel, bs: Seq<Seq<(u8, u64)>>) -> LeavesModel
    decreases bs.len(),
{
    if bs.len() == 0 {
        m
    } else {
        apply_batches(apply_changes(m, bs[0]), bs.drop_first())
    }
}

proof fn lemma_apply_batches_push(m: LeavesModel, bs: Seq<Seq<(u8, u64)>>, b: Seq<(u8, u64)>)
    ensures
        apply_batches(m, bs.push(b)) == apply_changes(apply_batches(m, bs), b),
    decreases bs.len(),
{
    if bs.len() == 0 {
        assert(bs.push(b)[0] == b);
        assert(bs.push(b).drop_first() =~= Seq::<Seq<(u8, u64)>>::empty());
        assert(apply_batches(apply_changes(m, b), Seq::<Seq<(u8, u64)>>::empty()) == apply_changes(
            m,
            b,
        ));
    } else {
        lemma_apply_batches_push(apply_changes(m, bs[0]), bs.drop_first(), b);
        assert(bs.push(b)[0] == bs[0]);
        assert(bs.push(b).drop_first() =~= bs.drop_first().push(b));
    }
}

/// Applies a whole batch to the named stream's state.
pub fn dispatch_state_changes(node: &mut Node, state_type: StateType, state_changes: &Vec<(u8, u64)>)
    requires
        old(node).inv(),
    ensures
        final(node).inv(),
        final(node).state_of(state_type).leaves_model() == apply_changes(
            old(node).state_of(state_type).leaves_model(),
            state_changes@,
        ),
        final(node).state_of(crate::node::other_stream(state_type)) == old(node).state_of(
            crate::node::other_stream(state_type),
        ),
        final(node).sequencer_block_number == old(node).sequencer_block_number,
        final(node).da_block_number == old(node).da_block_number,
        final(node).roots == old(node).roots,
        final(node).db() == old(node).db(),
        final(node).history(StateType::Sequencer) == old(node).history(StateType::Sequencer),
        final(node).history(StateType::DA) == old(node).history(StateType::DA),
        final(node).finalized_block_of(StateType::Sequencer) == old(node).finalized_block_of(
            StateType::Sequencer,
        ),
        final(node).finalized_block_of(StateType::DA) == old(node).finalized_block_of(
            StateType::DA,
        ),
{
    let mut i: usize = 0;
    while i < state_changes.len()
        invariant
            i <= state_changes@.len(),
            node.inv(),
            node.state_of(state_type).leaves_model() == apply_changes(
                old(node).state_of(state_type).leaves_model(),
                state_changes@.take(i as int),
            ),
            node.state_of(crate::node::other_stream(state_type)) == old(node).state_of(
                crate::node::other_stream(state_type),
            ),
            node.sequencer_block_number == old(node).sequencer_block_number,
            node.da_block_number == old(node).da_block_number,
            node.roots == old(node).roots,
            node.db() == old(node).db(),
            node.history(StateType::Sequencer) == old(node).history(StateType::Sequencer),
            node.history(StateType::DA) == old(node).history(StateType::DA),
            node.finalized_block_of(StateType::Sequencer) == old(node).finalized_block_of(
                StateType::Sequencer,
            ),
            node.finalized_block_of(StateType::DA) == old(node).finalized_block_of(StateType::DA),
        decreases state_changes@.len() - i,
    {
        let (key, value) = state_changes[i];
        node.dispatch_state_change(state_type, key, value);
        proof {
            lemma_apply_changes_push(
                old(node).state_of(state_type).leaves_model(),
                state_changes@.take(i as int),
                state_changes@[i as int],
            );
            assert(state_changes@.take(i + 1) =~= state_changes@.take(i as int).push(
                state_changes@[i as int],
            ));
        }
        i += 1;
    }
    proof {
        assert(state_changes@.take(state_changes@.len() as int) =~= state_changes@);
    }
}

// ----------------------------------------------------------- the DA step

/// The batches that the replay lines `next_da + 1 .. next_da + 1 + n` spell.
pub open spec fn replay_batches(lines: Seq<Vec<u8>>, next_da: int, n: int) -> Seq<Seq<(u8, u64)>> {
    Seq::new(n as nat, |i: int| parse_line_spec(lines[next_da + 1 + i]@).unwrap())
}

/// What a successful DA step did when its line was the batch `ps`: the batch
/// went to the DA state and was published; on a root match the sequencer is
/// untouched, else it was rolled back one DA round and re-aligned to the
/// batch, leaving five identical snapshots.
pub open spec fn batch_step_post(pre: Node, post: Node, ps: Seq<(u8, u64)>) -> bool {
    let new_da = apply_changes(pre.da_state.leaves_model(), ps);
    let target = (pre.sequencer_block_number - 5) as u64;
    &&& post.da_state.leaves_model() == new_da
    &&& post.da_block_number == pre.da_block_number + 1
    &&& post.sequencer_block_number == pre.sequencer_block_number
    &&& post.history(StateType::DA) == pre.history(StateType::DA).insert(
        post.da_block_number,
        new_da,
    )
    &&& (if crate::merkle::merkle_root_spec(new_da.items) == pre.sequencer_state.root_spec() {
        post.sequencer_state == pre.sequencer_state && post.roots.trusted == pre.roots.trusted
            && post.history(StateType::Sequencer) == pre.history(StateType::Sequencer)
    } else {
        post.sequencer_state.leaves_model() == apply_changes(
            crate::node::snapshot_or_initial(pre, StateType::Sequencer, target),
            ps,
        ) && post.roots.trusted@ == post.sequencer_state.root_spec() && (forall|b: u64|
            pre.sequencer_block_number - 4 <= b <= pre.sequencer_block_number
                ==> #[trigger] post.history(StateType::Sequencer).contains_key(b) && post.history(
                StateType::Sequencer,
            )[b] == post.sequencer_state.leaves_model())
    })
}

/// What a successful DA step did when its line was `REORG n`: both streams
/// were rolled back, the `n` replay lines are batches, and both states end
/// at the fold of those batches over the revert targets' snapshots.
pub open spec fn reorg_step_post(
    pre: Node,
    post: Node,
    lines: Seq<Vec<u8>>,
    next_da: int,
    n: u64,
    j: int,
) -> bool {
    let da_base = crate::node::snapshot_or_initial(
        pre,
        StateType::DA,
        (pre.da_block_number - n) as u64,
    );
    let seq_base = crate::node::snapshot_or_initial(
        pre,
        StateType::Sequencer,
        (pre.sequencer_block_number - (n + 1) * 5) as u64,
    );
    &&& j == next_da + 1 + n
    &&& n <= pre.da_block_number
    &&& post.da_block_number == pre.da_block_number - n + 1
    &&& post.sequencer_block_number == pre.sequencer_block_number - 5
    &&& (forall|i: int| 0 <= i < n ==> well_formed_line(#[trigger] lines[next_da + 1 + i]@))
    &&& post.da_state.leaves_model() == apply_batches(
        da_base,
        replay_batches(lines, next_da, n as int),
    )
    &&& post.sequencer_state.leaves_model() == apply_batches(
        seq_base,
        replay_batches(lines, next_da, n as int),
    )
    &&& post.roots.trusted@ == post.sequencer_state.root_spec()
}

/// Reads one DA line (and, for a REORG, its replay lines) and reconciles the
/// two states, as one DA step of the driver. On success the streams match,
/// the published root is the trusted root, and the step consumed the lines
/// `next_da .. j`, whose content the `batch_step_post` / `reorg_step_post`
/// clauses pin down.
pub fn apply_batch_to_data_availability(
    node: &mut Node,
    da_lines: &Vec<Vec<u8>>,
    next_da: usize,
) -> (r: Result<usize, NodeError>)
    requires
        old(node).inv(),
        5 * (old(node).da_block_number as int + 1) <= old(node).sequencer_block_number as int,
        old(node).roots.trusted@ == old(node).sequencer_state.root_spec(),
    ensures
        next_da >= da_lines@.len() ==> (r matches Err(e) && e == NodeError::Protocol),
        (next_da < da_lines@.len() && !well_formed_da_line(da_lines@[next_da as int]@)) ==> (
        r matches Err(e) && e == NodeError::Parse),
        r matches Ok(j) ==> {
            &&& next_da < j <= da_lines@.len()
            &&& final(node).inv()
            &&& final(node).sequencer_state.root_spec() == final(node).da_state.root_spec()
            &&& final(node).roots.on_da == final(node).roots.trusted
            &&& final(node).roots.trusted@ == final(node).sequencer_state.root_spec()
            &&& 5 * final(node).da_block_number as int <= final(node).sequencer_block_number as int
            &&& (j == next_da + 1 ==> final(node).da_block_number == old(node).da_block_number + 1
                && final(node).sequencer_block_number == old(node).sequencer_block_number)
            &&& (j > next_da + 1 ==> final(node).sequencer_block_number == old(node).sequencer_block_number - 5 && final(node).da_block_number as int == old(node).da_block_number - (j - next_da - 1) + 1)
            &&& (old(node).sequencer_block_number as int == 5 * (old(node).da_block_number as int
                + 1) && j <= next_da + 2 ==> final(node).sequencer_block_number as int == 5 * final(node).da_block_number as int)
            &&& final(node).roots.on_da_finalized == old(node).roots.on_da_finalized
            &&& final(node).finalized_block_of(StateType::Sequencer) == old(node).finalized_block_of(StateType::Sequencer)
            &&& final(node).finalized_block_of(StateType::DA) == old(node).finalized_block_of(
                StateType::DA,
            )
            &&& final(node).sequencer_block_number <= old(node).sequencer_block_number
            &&& (parse_line_spec(da_lines@[next_da as int]@) matches Some(ps) ==> (j == next_da
                + 1 && batch_step_post(*old(node), *final(node), ps)))
            &&& (parse_reorg_spec(da_lines@[next_da as int]@) matches Some(n) ==> reorg_step_post(
                *old(node),
                *final(node),
                da_lines@,
                next_da as int,
                n,
                j as int,
            ))
        },
        // The step's own refusals, tied to their causes. Where the store
        // could fail first, only that the step fails is promised.
        next_da < da_lines@.len() ==> (parse_reorg_spec(da_lines@[next_da as int]@) matches Some(n)
            ==> {
            &&& (n > old(node).da_block_number ==> (r matches Err(e) && e == NodeError::Protocol))
            &&& (n <= old(node).da_block_number && old(node).da_block_number - n < old(
                node,
            ).finalized_block_of(StateType::DA) ==> (r matches Err(e) && e == NodeError::Protocol))
            &&& (old(node).sequencer_block_number - 5 * (n as int + 1) < old(
                node,
            ).finalized_block_of(StateType::Sequencer) ==> r matches Err(e))
            &&& (next_da + 1 + n as int > da_lines@.len() ==> r matches Err(e))
            &&& ((exists|q: int|
                0 <= q < n as int && next_da + 1 + q < da_lines@.len() && !well_formed_line(
                    #[trigger] da_lines@[next_da + 1 + q]@,
                )) ==> r matches Err(e))
        }),
        next_da < da_lines@.len() ==> (parse_line_spec(da_lines@[next_da as int]@) matches Some(ps)
            ==> {
            let new_da = apply_changes(old(node).da_state.leaves_model(), ps);
            let realigned = apply_changes(
                crate::node::snapshot_or_initial(
                    *old(node),
                    StateType::Sequencer,
                    (old(node).sequencer_block_number - 5) as u64,
                ),
                ps,
            );
            &&& (crate::merkle::merkle_root_spec(new_da.items) != old(
                node,
            ).sequencer_state.root_spec() && old(node).sequencer_block_number - 5 < old(
                node,
            ).finalized_block_of(StateType::Sequencer) ==> (r matches Err(e) && e
                == NodeError::Protocol))
            &&& (crate::merkle::merkle_root_spec(new_da.items) != old(
                node,
            ).sequencer_state.root_spec() && crate::merkle::merkle_root_spec(realigned.items)
                != crate::merkle::merkle_root_spec(new_da.items) ==> r matches Err(e))
        }),
{
    if next_da >= da_lines.len() {
        return Err(NodeError::Protocol);
    }
    let ghost first = da_lines@[next_da as int]@;
    let parsed = match parse_da_line(&da_lines[next_da]) {
        Ok(l) => l,
        Err(e) => {
            return Err(e);
        },
    };
    match parsed {
        DaLine::Reorg(nrev) => {
            proof {
                assert(parse_reorg_spec(first) == Some(nrev) && nrev >= 1);
                assert(well_formed_reorg(first));
            }
            // Revert the last `nrev` DA blocks, and the corresponding
            // sequencer blocks plus the five of the current DA round.
            match node.revert_blocks(StateType::DA, nrev) {
                Ok(_) => {},
                Err(e) => {
                    return Err(e);
                },
            }
            proof {
                assert(nrev <= old(node).da_block_number);
                assert((nrev as int + 1) * 5 <= (old(node).da_block_number as int + 1) * 5);
            }
            let seq_rev = (nrev + 1) * 5;
            match node.revert_blocks(StateType::Sequencer, seq_rev) {
                Ok(_) => {},
                Err(e) => {
                    return Err(e);
                },
            }
            let ghost da_base = crate::node::snapshot_or_initial(
                *old(node),
                StateType::DA,
                (old(node).da_block_number - nrev) as u64,
            );
            let ghost seq_base = crate::node::snapshot_or_initial(
                *old(node),
                StateType::Sequencer,
                (old(node).sequencer_block_number - (nrev + 1) * 5) as u64,
            );
            proof {
                assert(replay_batches(da_lines@, next_da as int, 0) =~= Seq::<Seq<(u8, u64)>>::empty());
                assert(node.da_state.leaves_model() == apply_batches(
                    da_base,
                    replay_batches(da_lines@, next_da as int, 0),
                ));
                assert(node.sequencer_state.leaves_model() == apply_batches(
                    seq_base,
                    replay_batches(da_lines@, next_da as int, 0),
                ));
            }
            let ghost base_seq = node.sequencer_block_number;
            let ghost base_da = node.da_block_number;
            let dn = da_lines.len();
            let mut i: usize = 0;
            while (i as u64) < nrev
                invariant
                    node.inv(),
                    i as int <= nrev as int,
                    nrev >= 1,
                    next_da < dn,
                    dn == da_lines@.len(),
                    next_da + 1 + i <= dn,
                    parse_reorg_spec(da_lines@[next_da as int]@) == Some(nrev),
                    parse_line_spec(da_lines@[next_da as int]@) is None,
                    node.da_block_number == base_da,
                    base_da == old(node).da_block_number - nrev,
                    base_da >= old(node).finalized_block_of(StateType::DA),
                    node.sequencer_block_number as int == base_seq + 5 * (i as int),
                    base_seq == old(node).sequencer_block_number - (nrev as int + 1) * 5,
                    base_seq >= old(node).finalized_block_of(StateType::Sequencer),
                    5 * (old(node).da_block_number as int + 1) <= old(node).sequencer_block_number as int,
                    node.roots.on_da_finalized == old(node).roots.on_da_finalized,
                    node.finalized_block_of(StateType::Sequencer) == old(node).finalized_block_of(
                        StateType::Sequencer,
                    ),
                    node.finalized_block_of(StateType::DA) == old(node).finalized_block_of(
                        StateType::DA,
                    ),
                    i > 0 ==> node.roots.trusted@ == node.sequencer_state.root_spec(),
                    forall|q: int|
                        0 <= q < i ==> well_formed_line(#[trigger] da_lines@[next_da + 1 + q]@),
                    node.da_state.leaves_model() == apply_batches(
                        da_base,
                        replay_batches(da_lines@, next_da as int, i as int),
                    ),
                    node.sequencer_state.leaves_model() == apply_batches(
                        seq_base,
                        replay_batches(da_lines@, next_da as int, i as int),
                    ),
                decreases nrev - i,
            {
                let ghost pre_da_m = node.da_state.leaves_model();
                let ghost pre_seq_m = node.sequencer_state.leaves_model();
                let idx = next_da + 1 + i;
                if idx >= dn {
                    return Err(NodeError::Protocol);
                }
                let ghost rline = da_lines@[idx as int]@;
                let replay = match parse_da_line(&da_lines[idx]) {
                    Ok(DaLine::Batch(v)) => v,
                    Ok(DaLine::Reorg(_)) => {
                        return Err(NodeError::Protocol);
                    },
                    Err(e) => {
                        return Err(e);
                    },
                };
                dispatch_state_changes(node, StateType::DA, &replay);
                dispatch_state_changes(node, StateType::Sequencer, &replay);
                let ghost mid_da = node.da_state;
                let ghost mid_seq = node.sequencer_state;
                let mut t: usize = 0;
                while t < 5
                    invariant
                        t <= 5,
                        node.inv(),
                        node.da_state == mid_da,
                        node.sequencer_state == mid_seq,
                        node.sequencer_block_number as int == base_seq + 5 * (i as int) + t,
                        base_seq + 5 * (i as int) + 5 <= u64::MAX,
                        next_da < dn,
                        dn == da_lines@.len(),
                        next_da + 1 + i <= dn,
                        parse_reorg_spec(da_lines@[next_da as int]@) == Some(nrev),
                        parse_line_spec(da_lines@[next_da as int]@) is None,
                        nrev >= 1,
                        i as int <= nrev as int,
                        base_da == old(node).da_block_number - nrev,
                        base_da >= old(node).finalized_block_of(StateType::DA),
                        base_seq == old(node).sequencer_block_number - (nrev as int + 1) * 5,
                        base_seq >= old(node).finalized_block_of(StateType::Sequencer),
                        5 * (old(node).da_block_number as int + 1) <= old(
                            node,
                        ).sequencer_block_number as int,
                        t >= 1 ==> node.roots.trusted@ == node.sequencer_state.root_spec(),
                        node.da_block_number == base_da,
                        node.roots.on_da_finalized == old(node).roots.on_da_finalized,
                        node.finalized_block_of(StateType::Sequencer) == old(node).finalized_block_of(StateType::Sequencer),
                        node.finalized_block_of(StateType::DA) == old(node).finalized_block_of(
                            StateType::DA,
                        ),
                    decreases 5 - t,
                {
                    match node.trust_block() {
                        Ok(_) => {},
                        Err(e) => {
                            return Err(e);
                        },
                    }
                    t += 1;
                }
                proof {
                    assert(parse_line_spec(rline) == Some(replay@));
                    assert(well_formed_line(rline));
                    let pre_bs = replay_batches(da_lines@, next_da as int, i as int);
                    lemma_apply_batches_push(da_base, pre_bs, replay@);
                    lemma_apply_batches_push(seq_base, pre_bs, replay@);
                    assert(replay_batches(da_lines@, next_da as int, i + 1) =~= pre_bs.push(
                        replay@,
                    ));
                    assert(node.da_state.leaves_model() == apply_changes(pre_da_m, replay@));
                    assert(node.sequencer_state.leaves_model() == apply_changes(pre_seq_m, replay@));
                }
                i += 1;
            }
            match node.publish_block() {
                Ok(_) => {},
                Err(e) => {
                    return Err(e);
                },
            }
            if !node.is_state_match() {
                return Err(NodeError::Protocol);
            }
            Ok(next_da + 1 + i)
        },
        DaLine::Batch(changes) => {
            proof {
                assert(parse_line_spec(first) == Some(changes@));
                assert(well_formed_line(first));
                assert(parse_reorg_spec(first) is None);
            }
            dispatch_state_changes(node, StateType::DA, &changes);
            let ghost new_da = node.da_state.leaves_model();
            if node.is_state_match() {
                proof {
                    assert(crate::merkle::merkle_root_spec(new_da.items) == old(node).sequencer_state.root_spec());
                }
                match node.publish_block() {
                    Ok(_) => {},
                    Err(e) => {
                        return Err(e);
                    },
                }
                proof {
                    assert(batch_step_post(*old(node), *node, changes@));
                }
                return Ok(next_da + 1);
            }
            proof {
                assert(crate::merkle::merkle_root_spec(new_da.items) != old(node).sequencer_state.root_spec());
            }
            // The sequencer lied: roll it back one DA round and replay the
            // authoritative batch.
            match node.revert_blocks(StateType::Sequencer, 5) {
                Ok(_) => {},
                Err(e) => {
                    return Err(e);
                },
            }
            proof {
                assert(node.sequencer_state.leaves_model() == crate::node::snapshot_or_initial(
                    *old(node),
                    StateType::Sequencer,
                    (old(node).sequencer_block_number - 5) as u64,
                ));
            }
            dispatch_state_changes(node, StateType::Sequencer, &changes);
            let ghost realigned = node.sequencer_state;
            let ghost target = (old(node).sequencer_block_number - 5) as u64;
            let mut t: usize = 0;
            while t < 5
                invariant
                    t <= 5,
                    node.inv(),
                    node.sequencer_state == realigned,
                    node.da_state.leaves_model() == new_da,
                    node.sequencer_block_number as int == old(node).sequencer_block_number - 5 + t,
                    target == (old(node).sequencer_block_number - 5) as u64,
                    target as int == old(node).sequencer_block_number - 5,
                    node.da_block_number == old(node).da_block_number,
                    next_da < da_lines@.len(),
                    parse_line_spec(da_lines@[next_da as int]@) == Some(changes@),
                    parse_reorg_spec(da_lines@[next_da as int]@) is None,
                    old(node).sequencer_block_number - 5 >= old(node).finalized_block_of(
                        StateType::Sequencer,
                    ),
                    t >= 1 ==> node.roots.trusted@ == node.sequencer_state.root_spec(),
                    node.history(StateType::DA) == old(node).history(StateType::DA),
                    forall|b: u64|
                        target < b <= target + t ==> #[trigger] node.history(
                            StateType::Sequencer,
                        ).contains_key(b) && node.history(StateType::Sequencer)[b]
                            == node.sequencer_state.leaves_model(),
                    node.roots.on_da_finalized == old(node).roots.on_da_finalized,
                    node.finalized_block_of(StateType::Sequencer) == old(node).finalized_block_of(
                        StateType::Sequencer,
                    ),
                    node.finalized_block_of(StateType::DA) == old(node).finalized_block_of(
                        StateType::DA,
                    ),
                    5 * (old(node).da_block_number as int + 1) <= old(node).sequencer_block_number as int,
                decreases 5 - t,
            {
                let ghost prev = *node;
                match node.trust_block() {
                    Ok(_) => {},
                    Err(e) => {
                        return Err(e);
                    },
                }
                proof {
                    assert forall|b: u64|
                        target < b <= target + t + 1 implies (#[trigger] node.history(
                        StateType::Sequencer,
                    ).contains_key(b) && node.history(StateType::Sequencer)[b]
                        == node.sequencer_state.leaves_model()) by {
                        if b <= target + t {
                            assert(prev.history(StateType::Sequencer).contains_key(b));
                        }
                    }
                }
                t += 1;
            }
            if !node.is_state_match() {
                return Err(NodeError::Protocol);
            }
            let ghost pre_publish = *node;
            match node.publish_block() {
                Ok(_) => {},
                Err(e) => {
                    return Err(e);
                },
            }
            proof {
                assert forall|b: u64|
                    old(node).sequencer_block_number - 4 <= b <= old(
                    node,
                ).sequencer_block_number implies (#[trigger] node.history(
                    StateType::Sequencer,
                ).contains_key(b) && node.history(StateType::Sequencer)[b]
                    == node.sequencer_state.leaves_model()) by {
                    assert(pre_publish.history(StateType::Sequencer).contains_key(b));
                }
                assert(batch_step_post(*old(node), *node, changes@));
            }
            Ok(next_da + 1)
        },
    }
}

// --------------------------------------------------------------- the driver

/// The batches the sequencer lines spell, by position.
pub open spec fn seq_batches(lines: Seq<Vec<u8>>) -> Seq<Seq<(u8, u64)>> {
    Seq::new(lines.len(), |i: int| parse_line_spec(lines[i]@).unwrap())
}

/// Runs the node over the two streams: every line of the sequencer stream
/// commits one trusted block; every fifth block takes one DA step; and when
/// the DA counter passes five and hits a multiple of four with a fresh DA
/// root, that root is finalized. Every error is fatal. The per-step effects
/// are pinned by the contracts of `trust_block`, `finalize_block` and
/// `apply_batch_to_data_availability`; for a run too short to take a DA step
/// the final state is the fold of the parsed batches over the initial table.
#[verifier::rlimit(100)]
pub fn run(storage: sled::Db, seq_lines: &Vec<Vec<u8>>, da_lines: &Vec<Vec<u8>>) -> (r: Result<
    Node,
    NodeError,
>)
    ensures
        seq_lines@.len() == 0 ==> r matches Ok(node),
        (seq_lines@.len() > 0 && !well_formed_line(seq_lines@[0]@)) ==> (r matches Err(e) && e
            == NodeError::Parse),
        r matches Ok(node) ==> {
            &&& node.inv()
            &&& 5 * node.da_block_number as int <= node.sequencer_block_number as int
            &&& node.sequencer_block_number as int <= seq_lines@.len()
            &&& forall|j: int|
                0 <= j < seq_lines@.len() ==> well_formed_line(#[trigger] seq_lines@[j]@)
            &&& (seq_lines@.len() > 0 ==> node.sequencer_block_number >= 1
                && node.roots.trusted@ == node.sequencer_state.root_spec())
            &&& node.sequencer_block_number as int % 5 == seq_lines@.len() % 5
            &&& (seq_lines@.len() >= 5 ==> node.da_block_number >= 1)
            &&& (node.da_block_number >= 1 ==> node.roots.on_da@ == node.da_state.root_spec())
            &&& (seq_lines@.len() == 0 ==> node.sequencer_block_number == 0
                && node.da_block_number == 0 && node.sequencer_state.leaves_model()
                == crate::state_machine::initial_leaves_model() && node.da_state.leaves_model()
                == crate::state_machine::initial_leaves_model())
            &&& (seq_lines@.len() < 5 ==> (node.sequencer_state.leaves_model() == apply_batches(
                crate::state_machine::initial_leaves_model(),
                seq_batches(seq_lines@),
            ) && node.sequencer_block_number == seq_lines@.len() && node.da_block_number == 0
                && node.da_state.leaves_model() == crate::state_machine::initial_leaves_model()))
        },
{
    let mut node = Node::new(storage);
    let mut next_da: usize = 0;
    let mut i: usize = 0;
    while i < seq_lines.len()
        invariant
            node.inv(),
            i <= seq_lines@.len(),
            node.sequencer_block_number as int <= i as int,
            forall|j: int| 0 <= j < i ==> well_formed_line(#[trigger] seq_lines@[j]@),
            5 * node.da_block_number as int <= node.sequencer_block_number as int,
            next_da <= da_lines@.len(),
            i > 0 ==> node.sequencer_block_number >= 1 && node.roots.trusted@
                == node.sequencer_state.root_spec(),
            node.sequencer_block_number as int % 5 == i as int % 5,
            i >= 5 ==> node.da_block_number >= 1,
            i == 0 ==> node.sequencer_block_number == 0 && node.da_block_number == 0
                && node.sequencer_state.leaves_model()
                == crate::state_machine::initial_leaves_model() && node.da_state.leaves_model()
                == crate::state_machine::initial_leaves_model(),
            node.da_block_number >= 1 ==> node.roots.on_da@ == node.da_state.root_spec(),
            seq_lines@.len() < 5 ==> (node.sequencer_state.leaves_model() == apply_batches(
                crate::state_machine::initial_leaves_model(),
                seq_batches(seq_lines@).take(i as int),
            ) && node.sequencer_block_number == i && node.da_block_number == 0
                && node.da_state.leaves_model() == crate::state_machine::initial_leaves_model()),
        decreases seq_lines@.len() - i,
    {
        let ghost pre_loop = node;
        let changes = match get_state_changes(&seq_lines[i]) {
            Ok(v) => v,
            Err(e) => {
                return Err(e);
            },
        };
        proof {
            assert(parse_line_spec(seq_lines@[i as int]@) == Some(changes@));
            assert(well_formed_line(seq_lines@[i as int]@));
        }
        dispatch_state_changes(&mut node, StateType::Sequencer, &changes);
        match node.trust_block() {
            Ok(_) => {},
            Err(e) => {
                return Err(e);
            },
        }
        let ghost after_trust = node;
        if node.sequencer_block_number % 5 == 0 {
            proof {
                let sq = node.sequencer_block_number as int;
                let da = node.da_block_number as int;
                assert(5 * (da + 1) <= sq) by (nonlinear_arith)
                    requires
                        sq % 5 == 0,
                        5 * da <= sq - 1,
                        da >= 0,
                        sq >= 1,
                ;
            }
            next_da = match apply_batch_to_data_availability(&mut node, da_lines, next_da) {
                Ok(j) => j,
                Err(e) => {
                    return Err(e);
                },
            };
        }
        if node.da_block_number > 5 && node.da_block_number % 4 == 0 {
            let da_root = node.da_state.root();
            if !crate::hashes::digest_eq(&node.roots.on_da_finalized, &da_root) {
                match node.finalize_block() {
                    Ok(_) => {},
                    Err(e) => {
                        return Err(e);
                    },
                }
            }
        }
        proof {
            // A run of fewer than five lines never reaches a DA step: the
            // sequencer state stays the fold of the batches so far.
            if seq_lines@.len() < 5 {
                let bs = seq_batches(seq_lines@);
                assert(bs[i as int] == changes@);
                lemma_apply_batches_push(
                    crate::state_machine::initial_leaves_model(),
                    bs.take(i as int),
                    changes@,
                );
                assert(bs.take(i + 1) =~= bs.take(i as int).push(changes@));
                assert(node.sequencer_state.leaves_model() == apply_changes(
                    pre_loop.sequencer_state.leaves_model(),
                    changes@,
                ));
            }
        }
        i += 1;
    }
    proof {
        if seq_lines@.len() > 0 {
            assert(well_formed_line(seq_lines@[0]@));
        }
        if seq_lines@.len() < 5 {
            assert(seq_batches(seq_lines@).take(seq_lines@.len() as int) =~= seq_batches(
                seq_lines@,
            ));
        }
    }
    Ok(node)
}

} // verus!
