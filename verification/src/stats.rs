//! Counts of the frames seen, by address.

use vstd::prelude::*;
use std::collections::HashSet;
use crate::frame::NrfFrame;

verus! {

/// What is known of one address, as plain values.
pub struct RowView {
    pub address: Seq<u8>,
    pub count: nat,
    pub channels: Set<u8>,
    pub payload_lens: Set<usize>,
}

/// What is known of one address: how many frames came for it, and on which
/// channels and with which payload lengths.
#[derive(Debug)]
pub struct AddressStats {
    pub address: Vec<u8>,
    pub count: usize,
    pub channels: HashSet<u8>,
    pub payload_lens: HashSet<usize>,
}

impl View for AddressStats {
    type V = RowView;

    open spec fn view(&self) -> RowView {
        RowView {
            address: self.address@,
            count: self.count as nat,
            channels: self.channels@,
            payload_lens: self.payload_lens@,
        }
    }
}

/// The views of a run of rows.
pub open spec fn row_views(rows: Seq<AddressStats>) -> Seq<RowView> {
    rows.map_values(|r: AddressStats| r@)
}

/// The views of the rows that a run of references points to.
pub open spec fn ref_views(rows: Seq<&AddressStats>) -> Seq<RowView> {
    rows.map_values(|r: &AddressStats| r@)
}

/// The place of the row for `address` in `rows`, if there is one.
pub open spec fn place_of(rows: Seq<RowView>, address: Seq<u8>) -> Option<int> {
    if exists|i: int| 0 <= i < rows.len() && rows[i].address == address {
        Some(choose|i: int| 0 <= i < rows.len() && rows[i].address == address)
    } else {
        None
    }
}

/// No address has two rows.
pub open spec fn distinct(rows: Seq<RowView>) -> bool {
    forall|i: int, j: int|
        0 <= i < j < rows.len() ==> (#[trigger] rows[i]).address != (#[trigger] rows[j]).address
}

/// `count` and one more, as far as a `usize` counts.
pub open spec fn one_more(count: nat) -> nat {
    if count < usize::MAX {
        count + 1
    } else {
        count
    }
}

/// `row` with one more frame counted, seen on `channel` with a payload of
/// `payload_len` bytes.
pub open spec fn counted(row: RowView, channel: u8, payload_len: usize) -> RowView {
    RowView {
        address: row.address,
        count: one_more(row.count),
        channels: row.channels.insert(channel),
        payload_lens: row.payload_lens.insert(payload_len),
    }
}

/// The row of an address seen for the first time.
pub open spec fn first_seen(address: Seq<u8>, channel: u8, payload_len: usize) -> RowView {
    RowView {
        address,
        count: 1,
        channels: Set::empty().insert(channel),
        payload_lens: Set::empty().insert(payload_len),
    }
}

/// `rows` after a frame for `address`: its row counts one more, or a row is
/// added behind the others where there was none.
pub open spec fn recorded(
    rows: Seq<RowView>,
    address: Seq<u8>,
    channel: u8,
    payload_len: usize,
) -> Seq<RowView> {
    match place_of(rows, address) {
        Some(i) => rows.update(i, counted(rows[i], channel, payload_len)),
        None => rows.push(first_seen(address, channel, payload_len)),
    }
}

/// The place of the first row among those with the highest count.
pub open spec fn first_best(rows: Seq<RowView>) -> int
    decreases rows.len(),
{
    if rows.len() <= 1 {
        0
    } else {
        let before = first_best(rows.drop_last());
        if rows.last().count > rows[before].count {
            rows.len() - 1
        } else {
            before
        }
    }
}

/// `rows` by count, the highest first; rows with the same count stay in
/// their order. It is the one rearrangement of the rows along which the
/// counts do not rise and rows with the same count keep their order.
pub open spec fn ranking(rows: Seq<RowView>) -> Seq<RowView>
    decreases rows.len(),
{
    if rows.len() == 0 {
        Seq::empty()
    } else {
        proof {
            lemma_first_best_in_range(rows);
        }
        seq![rows[first_best(rows)]] + ranking(rows.remove(first_best(rows)))
    }
}

/// The first best row is a row.
pub proof fn lemma_first_best_in_range(rows: Seq<RowView>)
    requires
        rows.len() > 0,
    ensures
        0 <= first_best(rows) < rows.len(),
    decreases rows.len(),
{
    if rows.len() > 1 {
        lemma_first_best_in_range(rows.drop_last());
    }
}

/// A ranking has as many rows as were ranked.
pub proof fn lemma_ranking_len(rows: Seq<RowView>)
    ensures
        ranking(rows).len() == rows.len(),
    decreases rows.len(),
{
    if rows.len() > 0 {
        lemma_first_best_in_range(rows);
        lemma_ranking_len(rows.remove(first_best(rows)));
    }
}

/// No row counts more than the first best, and none before it as many.
pub proof fn lemma_first_best_is_best(rows: Seq<RowView>)
    requires
        rows.len() > 0,
    ensures
        0 <= first_best(rows) < rows.len(),
        forall|i: int| 0 <= i < rows.len() ==> (#[trigger] rows[i]).count <= rows[first_best(
            rows,
        )].count,
        forall|i: int| 0 <= i < first_best(rows) ==> (#[trigger] rows[i]).count < rows[first_best(
            rows,
        )].count,
    decreases rows.len(),
{
    if rows.len() > 1 {
        let shorter = rows.drop_last();
        lemma_first_best_is_best(shorter);
        assert forall|i: int| 0 <= i < rows.len() implies (#[trigger] rows[i]).count
            <= rows[first_best(rows)].count by {
            if i < shorter.len() {
                assert(shorter[i] == rows[i]);
            }
        }
        assert forall|i: int| 0 <= i < first_best(rows) implies (#[trigger] rows[i]).count
            < rows[first_best(rows)].count by {
            assert(shorter[i] == rows[i]);
        }
    }
}

/// The ranking is a rearrangement of the rows: it holds every row as often
/// as they do.
pub proof fn lemma_ranking_rearranges(rows: Seq<RowView>)
    ensures
        ranking(rows).to_multiset() == rows.to_multiset(),
    decreases rows.len(),
{
    broadcast use vstd::multiset::group_multiset_axioms;

    if rows.len() == 0 {
        assert(ranking(rows) =~= rows);
    } else {
        lemma_first_best_in_range(rows);
        let best = first_best(rows);
        let rest = rows.remove(best);
        lemma_ranking_rearranges(rest);
        vstd::seq_lib::to_multiset_remove(rows, best);
        vstd::seq_lib::to_multiset_insert(ranking(rest), 0, rows[best]);
        assert(ranking(rest).insert(0, rows[best]) =~= seq![rows[best]] + ranking(rest));
        rows.to_multiset_ensures();
        assert(rows.contains(rows[best]));
        assert(rows.to_multiset().remove(rows[best]).insert(rows[best]) =~= rows.to_multiset());
    }
}

/// Along the ranking the counts do not rise.
pub proof fn lemma_ranking_descends(rows: Seq<RowView>)
    ensures
        forall|i: int, j: int|
            0 <= i < j < ranking(rows).len() ==> (#[trigger] ranking(rows)[i]).count
                >= (#[trigger] ranking(rows)[j]).count,
    decreases rows.len(),
{
    if rows.len() > 0 {
        lemma_first_best_is_best(rows);
        let best = first_best(rows);
        let rest = rows.remove(best);
        let ranked = ranking(rest);
        lemma_ranking_descends(rest);
        lemma_ranking_rearranges(rest);
        ranked.to_multiset_ensures();
        rest.to_multiset_ensures();
        assert forall|i: int, j: int| 0 <= i < j < ranking(rows).len() implies (#[trigger] ranking(
            rows,
        )[i]).count >= (#[trigger] ranking(rows)[j]).count by {
            assert(ranking(rows)[j] == ranked[j - 1]);
            if i == 0 {
                // a row of the rest is a row, and counts no more than the best
                let row = ranked[j - 1];
                assert(ranked.contains(row));
                assert(ranked.to_multiset().count(row) > 0);
                assert(rest.to_multiset().count(row) > 0);
                assert(rest.contains(row));
                let k = choose|k: int| 0 <= k < rest.len() && rest[k] == row;
                if k < best {
                    assert(rest[k] == rows[k]);
                } else {
                    assert(rest[k] == rows[k + 1]);
                }
            } else {
                assert(ranking(rows)[i] == ranked[i - 1]);
            }
        }
    }
}

/// Where no address has two rows, the place of a row is the place of its
/// address.
pub proof fn lemma_place_of_row(rows: Seq<RowView>, q: int)
    requires
        distinct(rows),
        0 <= q < rows.len(),
    ensures
        place_of(rows, rows[q].address) == Some(q),
{
    let found = choose|i: int| 0 <= i < rows.len() && rows[i].address == rows[q].address;
    if found < q {
        assert(rows[found].address != rows[q].address);
    } else if q < found {
        assert(rows[q].address != rows[found].address);
    }
}

/// Rows with the same count stay in their order: of two such rows the one
/// that stands first in the ranking stands first among the rows.
pub proof fn lemma_ranking_is_stable(rows: Seq<RowView>)
    requires
        distinct(rows),
    ensures
        forall|i: int, j: int|
            0 <= i < j < ranking(rows).len() && (#[trigger] ranking(rows)[i]).count == (
            #[trigger] ranking(rows)[j]).count ==> place_of(rows, ranking(rows)[i].address).unwrap()
                < place_of(rows, ranking(rows)[j].address).unwrap(),
    decreases rows.len(),
{
    if rows.len() > 0 {
        lemma_first_best_is_best(rows);
        let best = first_best(rows);
        let rest = rows.remove(best);
        let ranked = ranking(rest);
        assert(distinct(rest)) by {
            assert forall|i: int, j: int| 0 <= i < j < rest.len() implies (#[trigger] rest[i]).address
                != (#[trigger] rest[j]).address by {
                let from_i = if i < best { i } else { i + 1 };
                let from_j = if j < best { j } else { j + 1 };
                assert(rest[i] == rows[from_i] && rest[j] == rows[from_j]);
            }
        }
        lemma_ranking_is_stable(rest);
        lemma_ranking_rearranges(rest);
        ranked.to_multiset_ensures();
        rest.to_multiset_ensures();
        lemma_place_of_row(rows, best);
        assert forall|i: int, j: int|
            0 <= i < j < ranking(rows).len() && (#[trigger] ranking(rows)[i]).count == (
            #[trigger] ranking(rows)[j]).count implies place_of(
            rows,
            ranking(rows)[i].address,
        ).unwrap() < place_of(rows, ranking(rows)[j].address).unwrap() by {
            // where the later of the two stands among the rows
            let later = ranked[j - 1];
            assert(ranking(rows)[j] == later);
            assert(ranked.contains(later));
            assert(ranked.to_multiset().count(later) > 0);
            assert(rest.to_multiset().count(later) > 0);
            assert(rest.contains(later));
            let k = choose|k: int| 0 <= k < rest.len() && rest[k] == later;
            let q = if k < best { k } else { k + 1 };
            assert(rest[k] == rows[q]);
            lemma_place_of_row(rows, q);
            lemma_place_of_row(rest, k);
            if i > 0 {
                let sooner = ranked[i - 1];
                assert(ranking(rows)[i] == sooner);
                assert(ranked.contains(sooner));
                assert(ranked.to_multiset().count(sooner) > 0);
                assert(rest.to_multiset().count(sooner) > 0);
                assert(rest.contains(sooner));
                let m = choose|m: int| 0 <= m < rest.len() && rest[m] == sooner;
                let p = if m < best { m } else { m + 1 };
                assert(rest[m] == rows[p]);
                lemma_place_of_row(rows, p);
                lemma_place_of_row(rest, m);
            }
        }
    }
}

/// Whether `a` and `b` hold the same bytes.
fn same_bytes(a: &[u8], b: &[u8]) -> (same: bool)
    ensures
        same == (a@ == b@),
{
    if a.len() != b.len() {
        return false;
    }
    let mut i: usize = 0;
    while i < a.len()
        invariant
            a@.len() == b@.len(),
            i <= a@.len(),
            forall|j: int| 0 <= j < i ==> a@[j] == b@[j],
        decreases a@.len() - i,
    {
        if a[i] != b[i] {
            return false;
        }
        i += 1;
    }
    assert(a@ =~= b@);
    true
}

/// The frames seen, counted by address, in the order in which the addresses
/// were first seen.
pub struct NrfStats {
    rows: Vec<AddressStats>,
}

impl View for NrfStats {
    type V = Seq<RowView>;

    closed spec fn view(&self) -> Seq<RowView> {
        row_views(self.rows@)
    }
}

impl NrfStats {
    #[verifier::type_invariant]
    closed spec fn valid(self) -> bool {
        distinct(row_views(self.rows@))
    }

    /// Nothing seen yet.
    pub fn new() -> (stats: Self)
        ensures
            stats@ == Seq::<RowView>::empty(),
    {
        let stats = NrfStats { rows: Vec::new() };
        assert(row_views(stats.rows@) =~= Seq::<RowView>::empty());
        stats
    }

    /// The place of the row for `address`, if there is one.
    fn find(&self, address: &[u8]) -> (place: Option<usize>)
        ensures
            match place {
                Some(i) => i < self@.len() && self@[i as int].address == address@ && place_of(
                    self@,
                    address@,
                ) == Some(i as int),
                None => place_of(self@, address@).is_none(),
            },
    {
        proof {
            use_type_invariant(self);
        }
        let mut i: usize = 0;
        while i < self.rows.len()
            invariant
                i <= self.rows@.len(),
                distinct(row_views(self.rows@)),
                forall|j: int| 0 <= j < i ==> row_views(self.rows@)[j].address != address@,
            decreases self.rows@.len() - i,
        {
            if same_bytes(self.rows[i].address.as_slice(), address) {
                proof {
                    let rows = row_views(self.rows@);
                    assert(rows[i as int].address == address@);
                    let k = choose|k: int| 0 <= k < rows.len() && rows[k].address == address@;
                    assert(k == i);
                }
                return Some(i);
            }
            i += 1;
        }
        None
    }

    /// Counts `frame` for its address, with its channel and its payload
    /// length.
    pub fn record(&mut self, frame: &NrfFrame)
        ensures
            final(self)@ == recorded(
                old(self)@,
                frame.address@,
                frame.channel,
                frame.payload@.len() as usize,
            ),
    {
        proof {
            use_type_invariant(&*self);
        }
        broadcast use {
            vstd::std_specs::hash::axiom_u8_obeys_hash_table_key_model,
            vstd::std_specs::hash::axiom_usize_obeys_hash_table_key_model,
            vstd::std_specs::hash::axiom_random_state_builds_valid_hashers,
        };

        let payload_len: usize = frame.payload.len();
        match self.find(frame.address.as_slice()) {
            Some(i) => {
                let mut rows: Vec<AddressStats> = Vec::new();
                std::mem::swap(&mut self.rows, &mut rows);
                let ghost before = row_views(rows@);
                let mut row = rows.remove(i);
                let ghost old_row = row@;
                if row.count < usize::MAX {
                    row.count = row.count + 1;
                }
                row.channels.insert(frame.channel);
                row.payload_lens.insert(payload_len);
                rows.insert(i, row);
                proof {
                    assert(row_views(rows@) =~= before.update(
                        i as int,
                        counted(old_row, frame.channel, payload_len),
                    ));
                }
                std::mem::swap(&mut self.rows, &mut rows);
            },
            None => {
                let mut channels: HashSet<u8> = HashSet::new();
                channels.insert(frame.channel);
                let mut payload_lens: HashSet<usize> = HashSet::new();
                payload_lens.insert(payload_len);
                let row = AddressStats {
                    address: frame.address.clone(),
                    count: 1,
                    channels,
                    payload_lens,
                };
                proof {
                    assert(row@ == first_seen(frame.address@, frame.channel, payload_len));
                }
                let mut rows: Vec<AddressStats> = Vec::new();
                std::mem::swap(&mut self.rows, &mut rows);
                let ghost before = row_views(rows@);
                rows.push(row);
                proof {
                    assert(row_views(rows@) =~= before.push(
                        first_seen(frame.address@, frame.channel, payload_len),
                    ));
                }
                std::mem::swap(&mut self.rows, &mut rows);
            },
        }
    }

    /// The `n` rows with the highest counts, the highest first; rows with the
    /// same count come in the order in which their addresses were first seen.
    pub fn top(&self, n: usize) -> (rows: Vec<&AddressStats>)
        ensures
            ref_views(rows@) == ranking(self@).take(
                if n < self@.len() {
                    n as int
                } else {
                    self@.len() as int
                },
            ),
    {
        proof {
            use_type_invariant(self);
            lemma_ranking_len(self@);
        }
        let all: usize = self.rows.len();
        let wanted: usize = if n < all {
            n
        } else {
            all
        };
        // the places of the rows not yet picked, in their order
        let mut left: Vec<usize> = Vec::new();
        let mut i: usize = 0;
        while i < all
            invariant
                all == self.rows@.len(),
                i <= all,
                left@.len() == i,
                forall|j: int| 0 <= j < i ==> left@[j] == j,
            decreases all - i,
        {
            left.push(i);
            i += 1;
        }
        let mut picked: Vec<&AddressStats> = Vec::new();
        proof {
            assert(left_views(self.rows@, left@) =~= row_views(self.rows@));
            assert(ref_views(picked@) + ranking(left_views(self.rows@, left@)) =~= ranking(
                self@,
            ));
        }
        while picked.len() < wanted
            invariant
                all == self.rows@.len(),
                wanted <= all,
                picked@.len() <= wanted,
                left@.len() + picked@.len() == all,
                forall|j: int| 0 <= j < left@.len() ==> left@[j] < all,
                ref_views(picked@) + ranking(left_views(self.rows@, left@)) == ranking(
                    row_views(self.rows@),
                ),
            decreases wanted - picked@.len(),
        {
            let best: usize = self.best_of(&left);
            let place: usize = left[best];
            let row: &AddressStats = &self.rows[place];
            proof {
                let views = left_views(self.rows@, left@);
                lemma_first_best_in_range(views);
                assert(left_views(self.rows@, left@.remove(best as int)) =~= views.remove(
                    best as int,
                ));
                assert(ref_views(picked@.push(row)) =~= ref_views(picked@) + seq![views[best as int]]);
                assert((ref_views(picked@) + seq![views[best as int]]) + ranking(
                    views.remove(best as int),
                ) =~= ref_views(picked@) + ranking(views));
            }
            left.remove(best);
            picked.push(row);
        }
        proof {
            let whole = ranking(row_views(self.rows@));
            let rest = ranking(left_views(self.rows@, left@));
            assert(ref_views(picked@) =~= whole.take(wanted as int)) by {
                assert((ref_views(picked@) + rest).take(wanted as int) =~= ref_views(picked@));
            }
        }
        picked
    }

    /// The place in `left` of the first best among the rows that `left`
    /// names.
    fn best_of(&self, left: &Vec<usize>) -> (best: usize)
        requires
            left@.len() > 0,
            forall|j: int| 0 <= j < left@.len() ==> left@[j] < self.rows@.len(),
        ensures
            best == first_best(left_views(self.rows@, left@)),
            best < left@.len(),
    {
        let ghost views = left_views(self.rows@, left@);
        let mut best: usize = 0;
        let mut j: usize = 1;
        proof {
            assert(views.take(1).len() == 1);
        }
        while j < left.len()
            invariant
                views == left_views(self.rows@, left@),
                forall|k: int| 0 <= k < left@.len() ==> left@[k] < self.rows@.len(),
                1 <= j <= left@.len(),
                best < j,
                best == first_best(views.take(j as int)),
            decreases left@.len() - j,
        {
            proof {
                let wider = views.take(j + 1);
                assert(wider.drop_last() =~= views.take(j as int));
            }
            if self.rows[left[j]].count > self.rows[left[best]].count {
                best = j;
            }
            j += 1;
        }
        proof {
            assert(views.take(left@.len() as int) =~= views);
        }
        best
    }
}

/// The rows that `left` names, in its order.
pub open spec fn left_views(rows: Seq<AddressStats>, left: Seq<usize>) -> Seq<RowView> {
    left.map_values(|i: usize| rows[i as int]@)
}

} // verus!
