use vstd::prelude::*;

use vstd::string::StrSliceExecFns;

use crate::error::DbError;

verus! {

/// A member of a ranked collection (a job or an account).
pub struct Member {
    pub id: i64,
    pub name: String,
    pub rank: i64,
}

/// What a member holds, as mathematical values.
pub struct MemberView {
    pub id: i64,
    pub name: Seq<char>,
    pub rank: i64,
}

impl View for Member {
    type V = MemberView;

    open spec fn view(&self) -> MemberView {
        MemberView { id: self.id, name: self.name@, rank: self.rank }
    }
}

/// ASCII case folding of one character; other characters stay as they are.
pub open spec fn fold_ascii(c: char) -> char {
    if 'A' <= c && c <= 'Z' {
        ((c as u32) + 32) as char
    } else {
        c
    }
}

/// Two names that are equal once ASCII letters are folded to lower case.
pub open spec fn names_match(a: Seq<char>, b: Seq<char>) -> bool {
    a.len() == b.len() && forall|i: int| 0 <= i < a.len() ==> fold_ascii(a[i]) == fold_ascii(b[i])
}

/// The code of `c` after ASCII case folding.
fn fold_code(c: char) -> (r: u32)
    ensures
        r == fold_ascii(c) as u32,
{
    let x = c as u32;
    if 65 <= x && x <= 90 {
        x + 32
    } else {
        x
    }
}

/// Whether two names are equal once ASCII letters are folded to lower case.
fn names_equal(a: &str, b: &str) -> (r: bool)
    ensures
        r == names_match(a@, b@),
{
    let n = a.unicode_len();
    if n != b.unicode_len() {
        return false;
    }
    let mut i: usize = 0;
    while i < n
        invariant
            n == a@.len(),
            n == b@.len(),
            0 <= i <= n,
            forall|k: int| 0 <= k < i ==> fold_ascii(a@[k]) == fold_ascii(b@[k]),
        decreases n - i,
    {
        if fold_code(a.get_char(i)) != fold_code(b.get_char(i)) {
            return false;
        }
        i = i + 1;
    }
    true
}

proof fn lemma_wf_pair(r: &Roster, i: int, j: int)
    requires
        r.wf(),
        0 <= i < r@.len(),
        0 <= j < r@.len(),
        i != j,
    ensures
        !names_match(r@[i].name, r@[j].name),
        r@[i].id != r@[j].id,
{
}

proof fn lemma_names_match_symmetric(a: Seq<char>, b: Seq<char>)
    ensures
        names_match(a, b) == names_match(b, a),
{
}

/// The members after every rank at or above `at` has moved up by one.
pub open spec fn shift_from(s: Seq<MemberView>, at: int) -> Seq<MemberView> {
    s.map_values(
        |m: MemberView|
            if m.rank >= at {
                MemberView { id: m.id, name: m.name, rank: (m.rank + 1) as i64 }
            } else {
                m
            },
    )
}

/// Whether some member's name matches `name`.
pub open spec fn has_name(s: Seq<MemberView>, name: Seq<char>) -> bool {
    exists|i: int| 0 <= i < s.len() && names_match(#[trigger] s[i].name, name)
}

/// Whether some member carries identifier `id`.
pub open spec fn has_id(s: Seq<MemberView>, id: i64) -> bool {
    exists|i: int| 0 <= i < s.len() && #[trigger] s[i].id == id
}

/// The set of ranks in use.
pub open spec fn rank_set(s: Seq<MemberView>) -> Set<int> {
    Set::new(|r: int| exists|i: int| 0 <= i < s.len() && #[trigger] s[i].rank == r)
}

/// A densely ranked collection of uniquely named members, kept in rank order.
pub struct Roster {
    members: Vec<Member>,
    next_id: i64,
}

impl View for Roster {
    type V = Seq<MemberView>;

    closed spec fn view(&self) -> Seq<MemberView> {
        self.members@.map_values(|m: Member| m@)
    }
}

impl Roster {
    /// The identifier that the next member will get.
    pub closed spec fn spec_next_id(&self) -> i64 {
        self.next_id
    }

    /// No identifier or rank is left for another member.
    pub open spec fn full(&self) -> bool {
        self.spec_next_id() == i64::MAX || self@.len() >= i64::MAX - 1
    }

    /// Ranks equal positions, names are unique ignoring ASCII case, and
    /// identifiers are distinct, at least 1 and below the next one.
    pub closed spec fn wf(&self) -> bool {
        &&& 1 <= self.next_id
        &&& self@.len() < i64::MAX
        &&& forall|i: int| 0 <= i < self@.len() ==> (#[trigger] self@[i]).rank == i
        &&& forall|i: int| 0 <= i < self@.len() ==> 1 <= (#[trigger] self@[i]).id < self.next_id
        &&& forall|i: int, j: int|
            0 <= i < self@.len() && 0 <= j < self@.len() && i != j ==> !names_match(
                (#[trigger] self@[i]).name,
                (#[trigger] self@[j]).name,
            ) && self@[i].id != self@[j].id
    }

    pub fn new() -> (r: Roster)
        ensures
            r.wf(),
            r@ == Seq::<MemberView>::empty(),
            r.spec_next_id() == 1,
    {
        let r = Roster { members: Vec::new(), next_id: 1 };
        assert(r@ =~= Seq::<MemberView>::empty());
        r
    }

    pub fn len(&self) -> (r: usize)
        ensures
            r == self@.len(),
    {
        self.members.len()
    }

    /// The member at position `i`, which is also its rank.
    pub fn get(&self, i: usize) -> (r: &Member)
        requires
            i < self@.len(),
        ensures
            r@ == self@[i as int],
    {
        &self.members[i]
    }

    /// The rank that a member appended now receives: one above the highest, or 0.
    pub fn next_rank(&self) -> (r: i64)
        requires
            self.wf(),
        ensures
            r == self@.len(),
            self@.len() == 0 ==> r == 0,
            self@.len() > 0 ==> r == self@[self@.len() - 1].rank + 1,
            forall|i: int| 0 <= i < self@.len() ==> self@[i].rank < r,
    {
        match select_max_rank(self) {
            None => 0,
            Some(m) => m + 1,
        }
    }

    /// Adds a member named `name` at rank `at`, moving every member at or
    /// above that rank up by one. The new member gets the next identifier.
    pub fn insert_at(&mut self, name: String, at: i64) -> (r: Result<i64, DbError>)
        requires
            old(self).wf(),
            0 <= at <= old(self)@.len(),
        ensures
            final(self).wf(),
            has_name(old(self)@, name@) ==> r == Err::<i64, DbError>(DbError::DuplicateName),
            !has_name(old(self)@, name@) && old(self).full() ==> r == Err::<i64, DbError>(
                DbError::IdsExhausted,
            ),
            r is Err ==> *final(self) == *old(self),
            !has_name(old(self)@, name@) && !old(self).full() ==> {
                &&& r == Ok::<i64, DbError>(old(self).spec_next_id())
                &&& !has_id(old(self)@, old(self).spec_next_id())
                &&& final(self).spec_next_id() == old(self).spec_next_id() + 1
                &&& final(self)@ == shift_from(old(self)@, at as int).insert(
                    at as int,
                    MemberView { id: old(self).spec_next_id(), name: name@, rank: at },
                )
            },
    {
        match verify_unique(self, name.as_str()) {
            Err(e) => {
                return Err(e);
            },
            Ok(()) => {},
        }
        if self.next_id == i64::MAX || self.members.len() as u128 >= (i64::MAX - 1) as u128 {
            return Err(DbError::IdsExhausted);
        }
        let ghost before = self@;
        let id = self.next_id;
        proof {
            if has_id(before, id) {
                let k = choose|k: int| 0 <= k < before.len() && #[trigger] before[k].id == id;
                assert(before[k].id < self.next_id);
            }
        }
        pre_insert(self, at);
        let ghost shifted = self@;
        assert(self.members@.len() == shifted.len());
        let ghost added = MemberView { id, name: name@, rank: at };
        self.members.insert(at as usize, Member { id, name, rank: at });
        self.next_id = id + 1;
        assert(self@ =~= shifted.insert(at as int, added));
        assert forall|i: int| 0 <= i < self@.len() implies (#[trigger] self@[i]).rank == i by {
            if i > at {
                assert(self@[i] == shifted[i - 1]);
                assert(before[i - 1].rank == i - 1);
            } else if i < at {
                assert(self@[i] == shifted[i]);
                assert(before[i].rank == i);
            }
        }
        assert forall|i: int, j: int|
            0 <= i < self@.len() && 0 <= j < self@.len() && i != j implies !names_match(
                #[trigger] self@[i].name,
                #[trigger] self@[j].name,
            ) && self@[i].id != self@[j].id by {
            let oi = if i < at { i } else { i - 1 };
            let oj = if j < at { j } else { j - 1 };
            if i == at {
                assert(self@[j] == shifted[oj]);
                assert(!names_match(before[oj].name, name@));
                assert(before[oj].id < id);
            } else if j == at {
                assert(self@[i] == shifted[oi]);
                assert(!names_match(before[oi].name, name@));
                assert(before[oi].id < id);
            } else {
                assert(self@[i] == shifted[oi]);
                assert(self@[j] == shifted[oj]);
            }
        }
        Ok(id)
    }

    /// Appends a member named `name` at the next free rank.
    pub fn insert(&mut self, name: String) -> (r: Result<i64, DbError>)
        requires
            old(self).wf(),
        ensures
            final(self).wf(),
            has_name(old(self)@, name@) ==> r == Err::<i64, DbError>(DbError::DuplicateName),
            !has_name(old(self)@, name@) && old(self).full() ==> r == Err::<i64, DbError>(
                DbError::IdsExhausted,
            ),
            r is Err ==> *final(self) == *old(self),
            !has_name(old(self)@, name@) && !old(self).full() ==> {
                &&& r == Ok::<i64, DbError>(old(self).spec_next_id())
                &&& !has_id(old(self)@, old(self).spec_next_id())
                &&& final(self).spec_next_id() == old(self).spec_next_id() + 1
                &&& final(self)@ == old(self)@.push(
                    MemberView {
                        id: old(self).spec_next_id(),
                        name: name@,
                        rank: old(self)@.len() as i64,
                    },
                )
            },
    {
        let at = self.next_rank();
        proof {
            assert(shift_from(self@, at as int) =~= self@);
            assert(self@.insert(at as int, MemberView { id: self.next_id, name: name@, rank: at })
                =~= self@.push(MemberView { id: self.next_id, name: name@, rank: at }));
        }
        self.insert_at(name, at)
    }

    /// Appends a member read back from storage. It is taken only where its
    /// rank is the next one, its identifier is at least 1, below `i64::MAX`
    /// and unused, and its name matches no other member's.
    pub fn restore(&mut self, id: i64, name: String, rank: i64) -> (r: Result<(), DbError>)
        requires
            old(self).wf(),
        ensures
            final(self).wf(),
            r is Ok <==> {
                &&& rank == old(self)@.len()
                &&& 1 <= id < i64::MAX
                &&& old(self)@.len() < i64::MAX - 1
                &&& !has_id(old(self)@, id)
                &&& !has_name(old(self)@, name@)
            },
            r is Err ==> r == Err::<(), DbError>(DbError::CorruptRecord) && *final(self) == *old(
                self,
            ),
            r is Ok ==> final(self)@ == old(self)@.push(MemberView { id, name: name@, rank }),
    {
        let n = self.members.len();
        if n as u128 >= (i64::MAX - 1) as u128 || rank != n as i64 || id < 1 || id == i64::MAX {
            return Err(DbError::CorruptRecord);
        }
        if verify_unique(self, name.as_str()).is_err() {
            return Err(DbError::CorruptRecord);
        }
        let mut i: usize = 0;
        while i < n
            invariant
                self.wf(),
                *self == *old(self),
                n == self@.len(),
                0 <= i <= n,
                forall|k: int| 0 <= k < i ==> (#[trigger] self@[k]).id != id,
            decreases n - i,
        {
            assert(self@[i as int] == self.members@[i as int]@);
            if self.members[i].id == id {
                assert(self@[i as int].id == id);
                return Err(DbError::CorruptRecord);
            }
            i = i + 1;
        }
        let ghost before = self@;
        assert(before == old(self)@);
        assert(forall|k: int| 0 <= k < n ==> (#[trigger] before[k]).id != id);
        self.members.push(Member { id, name, rank });
        if id >= self.next_id {
            self.next_id = id + 1;
        }
        assert(self@ =~= before.push(MemberView { id, name: name@, rank }));
        assert forall|i: int, j: int|
            0 <= i < self@.len() && 0 <= j < self@.len() && i != j implies !names_match(
                #[trigger] self@[i].name,
                #[trigger] self@[j].name,
            ) && self@[i].id != self@[j].id by {
            if i == n {
                assert(self@[j] == before[j]);
                assert(!names_match(before[j].name, name@));
                lemma_names_match_symmetric(before[j].name, name@);
                assert(before[j].id != id);
            } else if j == n {
                assert(self@[i] == before[i]);
                assert(!names_match(before[i].name, name@));
                assert(before[i].id != id);
            } else {
                assert(self@[i] == before[i]);
                assert(self@[j] == before[j]);
                lemma_wf_pair(old(self), i, j);
            }
        }
        Ok(())
    }
}

/// Moves every member whose rank is `rank` or higher up by one, leaving `rank` free.
/// Until a member is put at `rank` the ranks have a gap; `Roster::insert_at`
/// does both steps.
pub fn pre_insert(roster: &mut Roster, rank: i64)
    requires
        old(roster).wf(),
    ensures
        final(roster)@ == shift_from(old(roster)@, rank as int),
        final(roster).spec_next_id() == old(roster).spec_next_id(),
{
    let n = roster.members.len();
    let ghost before = roster@;
    let mut i: usize = 0;
    while i < n
        invariant
            n == before.len(),
            n < i64::MAX,
            roster.members@.len() == n,
            roster.next_id == old(roster).next_id,
            before == old(roster)@,
            forall|k: int| 0 <= k < n ==> before[k].rank == k,
            0 <= i <= n,
            forall|k: int|
                0 <= k < i ==> (#[trigger] roster.members@[k])@ == shift_from(before, rank as int)[k],
            forall|k: int| i <= k < n ==> (#[trigger] roster.members@[k])@ == before[k],
        decreases n - i,
    {
        assert(roster.members@[i as int]@ == before[i as int]);
        if roster.members[i].rank >= rank {
            roster.members[i].rank = roster.members[i].rank + 1;
        }
        i = i + 1;
    }
    assert(roster@ =~= shift_from(before, rank as int));
}

/// Succeeds where no member's name matches `name`, ignoring ASCII case.
pub fn verify_unique(roster: &Roster, name: &str) -> (r: Result<(), DbError>)
    ensures
        r is Ok <==> !has_name(roster@, name@),
        r is Err ==> r == Err::<(), DbError>(DbError::DuplicateName),
{
    let n = roster.members.len();
    let mut i: usize = 0;
    while i < n
        invariant
            n == roster@.len(),
            0 <= i <= n,
            forall|k: int| 0 <= k < i ==> !names_match(#[trigger] roster@[k].name, name@),
        decreases n - i,
    {
        assert(roster@[i as int] == roster.members@[i as int]@);
        if names_equal(roster.members[i].name.as_str(), name) {
            assert(names_match(roster@[i as int].name, name@));
            return Err(DbError::DuplicateName);
        }
        i = i + 1;
    }
    Ok(())
}

/// Within a well-formed collection of `k` members the ranks in use are
/// exactly `0, 1, ..., k - 1`.
pub proof fn lemma_ranks_dense(roster: &Roster)
    requires
        roster.wf(),
    ensures
        rank_set(roster@) == Set::new(|r: int| 0 <= r < roster@.len()),
{
    assert forall|r: int| #[trigger] rank_set(roster@).contains(r) <==> 0 <= r < roster@.len() by {
        if 0 <= r < roster@.len() {
            assert(roster@[r].rank == r);
        }
    }
    assert(rank_set(roster@) =~= Set::new(|r: int| 0 <= r < roster@.len()));
}

/// In a well-formed collection a member's rank is its position.
pub proof fn lemma_rank_is_position(roster: &Roster, i: int)
    requires
        roster.wf(),
        0 <= i < roster@.len(),
    ensures
        roster@[i].rank == i,
        1 <= roster@[i].id,
{
}

/// Names in a well-formed collection are unique, ignoring ASCII case.
pub proof fn lemma_names_unique(roster: &Roster, i: int, j: int)
    requires
        roster.wf(),
        0 <= i < roster@.len(),
        0 <= j < roster@.len(),
        names_match(roster@[i].name, roster@[j].name),
    ensures
        i == j,
{
}

/// The highest rank in use, or `None` for an empty collection.
pub fn select_max_rank(roster: &Roster) -> (r: Option<i64>)
    requires
        roster.wf(),
    ensures
        roster@.len() == 0 <==> r is None,
        r matches Some(m) ==> {
            &&& rank_set(roster@).contains(m as int)
            &&& forall|i: int| 0 <= i < roster@.len() ==> roster@[i].rank <= m
            &&& m == roster@.len() - 1
        },
{
    let n = roster.members.len();
    if n == 0 {
        return None;
    }
    let mut best: i64 = roster.members[0].rank;
    let mut i: usize = 1;
    while i < n
        invariant
            roster.wf(),
            n == roster@.len(),
            1 <= i <= n,
            best == roster@[i - 1].rank,
            forall|j: int| 0 <= j < i ==> roster@[j].rank <= best,
        decreases n - i,
    {
        if roster.members[i].rank > best {
            best = roster.members[i].rank;
        }
        assert(roster@[i as int] == roster.members@[i as int]@);
        i = i + 1;
    }
    assert(roster@[n - 1].rank == n - 1);
    Some(best)
}

} // verus!
