//! The verifier-side protocol state machine.
//!
//! `AuthImpl` owns the user records and the challenge-handle index.  Its
//! three operations — registration, challenge issuance and proof
//! verification — are specified over two ghost maps: usernames to records,
//! and outstanding challenge handles to usernames.

use vstd::prelude::*;
use crate::arith::verify_spec;
use crate::bignum::{be_val, big_clone, big_from_bytes_be, bigval};
use crate::zkp::ZKP;

verus! {

/// Length, in characters, of challenge handles and session identifiers.
/// Tokens are drawn from 62 letters and digits, so this length carries
/// more than 128 bits of entropy and makes collisions among outstanding
/// identifiers negligible.
pub const TOKEN_LENGTH: usize = 22;

/// The typed failures of the verifier.  None of them terminates the
/// process; each is reported to the caller.
#[derive(Clone, Copy, Debug, PartialEq, Eq, Structural)]
pub enum AuthError {
    /// A challenge was requested for a username that is not registered.
    UserNotFound,
    /// The presented handle is unknown, already consumed, or superseded.
    ChallengeNotFound,
    /// The verification equations failed.
    InvalidProof,
    /// A numeric field exceeds its expected byte length.
    MalformedInput,
}

/// A challenge issued to a user and not yet answered: the prover's
/// ephemeral commitment, the verifier's challenge, and the handle that
/// binds them to one verification attempt.
pub struct PendingChallenge {
    pub auth_id: String,
    pub r1: num_bigint::BigUint,
    pub r2: num_bigint::BigUint,
    pub c: num_bigint::BigUint,
}

/// A registered user: the public commitment published at registration,
/// and the outstanding challenge, if any.
pub struct UserInfo {
    pub user_name: String,
    pub y1: num_bigint::BigUint,
    pub y2: num_bigint::BigUint,
    pub pending: Option<PendingChallenge>,
}

/// One entry of the challenge-handle index.
pub struct AuthEntry {
    pub auth_id: String,
    pub user_name: String,
}

/// Ghost value of a pending challenge.
pub struct PendingView {
    pub auth_id: Seq<char>,
    pub r1: nat,
    pub r2: nat,
    pub c: nat,
}

/// Ghost value of a user record.
pub struct UserInfoView {
    pub user_name: Seq<char>,
    pub y1: nat,
    pub y2: nat,
    pub pending: Option<PendingView>,
}

/// Ghost value of an index entry.
pub struct AuthEntryView {
    pub auth_id: Seq<char>,
    pub user_name: Seq<char>,
}

impl View for PendingChallenge {
    type V = PendingView;

    open spec fn view(&self) -> PendingView {
        PendingView {
            auth_id: self.auth_id@,
            r1: bigval(self.r1),
            r2: bigval(self.r2),
            c: bigval(self.c),
        }
    }
}

impl View for UserInfo {
    type V = UserInfoView;

    open spec fn view(&self) -> UserInfoView {
        UserInfoView {
            user_name: self.user_name@,
            y1: bigval(self.y1),
            y2: bigval(self.y2),
            pending: match self.pending {
                Some(p) => Some(p@),
                None => None,
            },
        }
    }
}

impl View for AuthEntry {
    type V = AuthEntryView;

    open spec fn view(&self) -> AuthEntryView {
        AuthEntryView { auth_id: self.auth_id@, user_name: self.user_name@ }
    }
}

/// No two records carry the same username.
pub open spec fn names_unique(users: Seq<UserInfoView>) -> bool {
    forall|i: int, j: int|
        0 <= i < j < users.len() ==> users[i].user_name != users[j].user_name
}

/// No two index entries carry the same handle.
pub open spec fn auths_unique(index: Seq<AuthEntryView>) -> bool {
    forall|i: int, j: int| 0 <= i < j < index.len() ==> index[i].auth_id != index[j].auth_id
}

/// Some record carries this username.
pub open spec fn has_name(users: Seq<UserInfoView>, name: Seq<char>) -> bool {
    exists|i: int| 0 <= i < users.len() && users[i].user_name == name
}

/// The position of the record carrying this username.
pub open spec fn idx_of_name(users: Seq<UserInfoView>, name: Seq<char>) -> int {
    choose|i: int| 0 <= i < users.len() && users[i].user_name == name
}

/// The record carrying this username.
pub open spec fn rec_of(users: Seq<UserInfoView>, name: Seq<char>) -> UserInfoView {
    users[idx_of_name(users, name)]
}

/// Some index entry carries this handle.
pub open spec fn has_auth(index: Seq<AuthEntryView>, auth_id: Seq<char>) -> bool {
    exists|i: int| 0 <= i < index.len() && index[i].auth_id == auth_id
}

/// The position of the index entry carrying this handle.
pub open spec fn idx_of_auth(index: Seq<AuthEntryView>, auth_id: Seq<char>) -> int {
    choose|i: int| 0 <= i < index.len() && index[i].auth_id == auth_id
}

/// The username the index binds this handle to.
pub open spec fn entry_user(index: Seq<AuthEntryView>, auth_id: Seq<char>) -> Seq<char> {
    index[idx_of_auth(index, auth_id)].user_name
}

/// The user table as a map from usernames to records.
pub open spec fn users_map_of(users: Seq<UserInfoView>) -> Map<Seq<char>, UserInfoView> {
    Map::new(|n: Seq<char>| has_name(users, n), |n: Seq<char>| rec_of(users, n))
}

/// The handle index as a map from handles to usernames.
pub open spec fn index_map_of(index: Seq<AuthEntryView>) -> Map<Seq<char>, Seq<char>> {
    Map::new(|a: Seq<char>| has_auth(index, a), |a: Seq<char>| entry_user(index, a))
}

/// An index entry is honest: it points at a registered user whose pending
/// challenge carries exactly this handle.
pub open spec fn entry_ok(users: Seq<UserInfoView>, e: AuthEntryView) -> bool {
    &&& has_name(users, e.user_name)
    &&& rec_of(users, e.user_name).pending is Some
    &&& rec_of(users, e.user_name).pending->Some_0.auth_id == e.auth_id
}

/// A record found at position `i` is the record `rec_of` denotes.
proof fn lemma_found_name(users: Seq<UserInfoView>, i: int, name: Seq<char>)
    requires
        names_unique(users),
        0 <= i < users.len(),
        users[i].user_name == name,
    ensures
        has_name(users, name),
        idx_of_name(users, name) == i,
        rec_of(users, name) == users[i],
{
    assert(has_name(users, name));
    let j = idx_of_name(users, name);
    assert(0 <= j < users.len() && users[j].user_name == name);
    if i != j {
        assert(false);
    }
}

/// An entry found at position `i` is the entry `idx_of_auth` denotes.
proof fn lemma_found_auth(index: Seq<AuthEntryView>, i: int, auth_id: Seq<char>)
    requires
        auths_unique(index),
        0 <= i < index.len(),
        index[i].auth_id == auth_id,
    ensures
        has_auth(index, auth_id),
        idx_of_auth(index, auth_id) == i,
        entry_user(index, auth_id) == index[i].user_name,
{
    assert(has_auth(index, auth_id));
    let j = idx_of_auth(index, auth_id);
    assert(0 <= j < index.len() && index[j].auth_id == auth_id);
    if i != j {
        assert(false);
    }
}

/// An index entry that points at a user other than the one being written
/// stays honest.
proof fn lemma_entry_ok_insert(
    users1: Seq<UserInfoView>,
    users2: Seq<UserInfoView>,
    v: UserInfoView,
    e: AuthEntryView,
)
    requires
        entry_ok(users1, e),
        e.user_name != v.user_name,
        users_map_of(users2) == users_map_of(users1).insert(v.user_name, v),
    ensures
        entry_ok(users2, e),
{
    assert(users_map_of(users1).dom().contains(e.user_name));
    assert(users_map_of(users2).dom().contains(e.user_name));
    assert(has_name(users2, e.user_name));
    assert(users_map_of(users2)[e.user_name] == users_map_of(users1)[e.user_name]);
    assert(rec_of(users2, e.user_name) == rec_of(users1, e.user_name));
}

/// Replacing the record at `i` by one with the same username updates the
/// user map at that username and nothing else.
proof fn lemma_users_map_update(users: Seq<UserInfoView>, i: int, v: UserInfoView)
    requires
        names_unique(users),
        0 <= i < users.len(),
        v.user_name == users[i].user_name,
    ensures
        names_unique(users.update(i, v)),
        users_map_of(users.update(i, v)) == users_map_of(users).insert(v.user_name, v),
{
    let users2 = users.update(i, v);
    assert forall|a: int, b: int| 0 <= a < b < users2.len() implies users2[a].user_name
        != users2[b].user_name by {
        assert(users[a].user_name != users[b].user_name);
    }
    let m1 = users_map_of(users);
    let m2 = users_map_of(users2);
    assert forall|n: Seq<char>| #[trigger] has_name(users2, n) implies has_name(users, n) by {
        let j = choose|j: int| 0 <= j < users2.len() && users2[j].user_name == n;
        assert(users[j].user_name == n);
    }
    assert forall|n: Seq<char>| #[trigger] has_name(users, n) implies has_name(users2, n) by {
        let j = choose|j: int| 0 <= j < users.len() && users[j].user_name == n;
        assert(users2[j].user_name == n);
    }
    assert(has_name(users, v.user_name)) by {
        assert(users[i].user_name == v.user_name);
    }
    assert forall|n: Seq<char>| #[trigger] has_name(users2, n) implies rec_of(users2, n) == (
    if n == v.user_name {
        v
    } else {
        rec_of(users, n)
    }) by {
        let j2 = idx_of_name(users2, n);
        assert(0 <= j2 < users2.len() && users2[j2].user_name == n);
        lemma_found_name(users2, j2, n);
        if n == v.user_name {
            if j2 != i {
                assert(users[j2].user_name == users[i].user_name);
                assert(false);
            }
        } else {
            assert(j2 != i);
            assert(users[j2].user_name == n);
            lemma_found_name(users, j2, n);
        }
    }
    assert(m2 =~= m1.insert(v.user_name, v));
}

/// Appending a record with a fresh username inserts it into the user map
/// and changes nothing else.
proof fn lemma_users_map_push(users: Seq<UserInfoView>, v: UserInfoView)
    requires
        names_unique(users),
        !has_name(users, v.user_name),
    ensures
        names_unique(users.push(v)),
        users_map_of(users.push(v)) == users_map_of(users).insert(v.user_name, v),
{
    let users2 = users.push(v);
    assert forall|a: int, b: int| 0 <= a < b < users2.len() implies users2[a].user_name
        != users2[b].user_name by {
        if b < users.len() {
            assert(users[a].user_name != users[b].user_name);
        } else {
            assert(users2[b] == v);
            if users[a].user_name == v.user_name {
                assert(has_name(users, v.user_name));
            }
        }
    }
    assert forall|n: Seq<char>| #[trigger] has_name(users2, n) implies (has_name(users, n) || n
        == v.user_name) by {
        let j = choose|j: int| 0 <= j < users2.len() && users2[j].user_name == n;
        if j < users.len() {
            assert(users[j].user_name == n);
        }
    }
    assert forall|n: Seq<char>| #[trigger] has_name(users, n) implies has_name(users2, n) by {
        let j = choose|j: int| 0 <= j < users.len() && users[j].user_name == n;
        assert(users2[j].user_name == n);
    }
    assert(users2[users.len() as int] == v);
    assert(has_name(users2, v.user_name));
    assert forall|n: Seq<char>| #[trigger] has_name(users2, n) implies rec_of(users2, n) == (
    if n == v.user_name {
        v
    } else {
        rec_of(users, n)
    }) by {
        let j2 = idx_of_name(users2, n);
        assert(0 <= j2 < users2.len() && users2[j2].user_name == n);
        lemma_found_name(users2, j2, n);
        if n == v.user_name {
            if j2 < users.len() {
                assert(has_name(users, v.user_name));
            }
            assert(users2[j2] == v);
        } else {
            assert(j2 < users.len());
            assert(users[j2].user_name == n);
            lemma_found_name(users, j2, n);
        }
    }
    assert(users_map_of(users2) =~= users_map_of(users).insert(v.user_name, v));
}

/// Removing the entry at `i` removes exactly its handle from the index map.
proof fn lemma_index_map_remove(index: Seq<AuthEntryView>, i: int)
    requires
        auths_unique(index),
        0 <= i < index.len(),
    ensures
        auths_unique(index.remove(i)),
        index_map_of(index.remove(i)) == index_map_of(index).remove(index[i].auth_id),
        !has_auth(index.remove(i), index[i].auth_id),
        forall|e: AuthEntryView| #[trigger]
            index.remove(i).contains(e) ==> index.contains(e),
{
    let aid = index[i].auth_id;
    let index2 = index.remove(i);
    assert(index2.len() == index.len() - 1);
    assert forall|j: int| 0 <= j < index2.len() implies index2[j] == (
    if j < i {
        index[j]
    } else {
        index[j + 1]
    }) by {}
    assert forall|a: int, b: int| 0 <= a < b < index2.len() implies index2[a].auth_id
        != index2[b].auth_id by {
        let a0 = if a < i { a } else { a + 1 };
        let b0 = if b < i { b } else { b + 1 };
        assert(index[a0].auth_id != index[b0].auth_id);
    }
    assert forall|e: AuthEntryView| #[trigger] index2.contains(e) implies index.contains(e) by {
        let j = choose|j: int| 0 <= j < index2.len() && index2[j] == e;
        let j0 = if j < i { j } else { j + 1 };
        assert(index[j0] == e);
    }
    if has_auth(index2, aid) {
        let j = choose|j: int| 0 <= j < index2.len() && index2[j].auth_id == aid;
        let j0 = if j < i { j } else { j + 1 };
        assert(index[j0].auth_id == aid && index[i].auth_id == aid && j0 != i);
        assert(false);
    }
    assert forall|a: Seq<char>| #[trigger] has_auth(index2, a) implies has_auth(index, a) && a
        != aid by {
        let j = choose|j: int| 0 <= j < index2.len() && index2[j].auth_id == a;
        let j0 = if j < i { j } else { j + 1 };
        assert(index[j0].auth_id == a);
        if a == aid {
            assert(has_auth(index2, aid));
        }
    }
    assert forall|a: Seq<char>| #[trigger] has_auth(index, a) && a != aid implies has_auth(
        index2,
        a,
    ) by {
        let j0 = choose|j: int| 0 <= j < index.len() && index[j].auth_id == a;
        assert(j0 != i);
        let j = if j0 < i { j0 } else { j0 - 1 };
        assert(index2[j] == index[j0]);
    }
    assert forall|a: Seq<char>| #[trigger] has_auth(index2, a) implies entry_user(index2, a)
        == entry_user(index, a) by {
        let j = idx_of_auth(index2, a);
        assert(0 <= j < index2.len() && index2[j].auth_id == a);
        lemma_found_auth(index2, j, a);
        let j0 = if j < i { j } else { j + 1 };
        assert(index[j0].auth_id == a);
        lemma_found_auth(index, j0, a);
        assert(index2[j] == index[j0]);
    }
    assert(index_map_of(index2) =~= index_map_of(index).remove(aid));
}

/// Appending an entry with a fresh handle inserts it into the index map and
/// changes nothing else.
proof fn lemma_index_map_push(index: Seq<AuthEntryView>, e: AuthEntryView)
    requires
        auths_unique(index),
        !has_auth(index, e.auth_id),
    ensures
        auths_unique(index.push(e)),
        index_map_of(index.push(e)) == index_map_of(index).insert(e.auth_id, e.user_name),
        forall|e2: AuthEntryView| #[trigger]
            index.push(e).contains(e2) ==> index.contains(e2) || e2 == e,
{
    let index2 = index.push(e);
    assert forall|a: int, b: int| 0 <= a < b < index2.len() implies index2[a].auth_id
        != index2[b].auth_id by {
        if b < index.len() {
            assert(index[a].auth_id != index[b].auth_id);
        } else {
            assert(index2[b] == e);
            if index[a].auth_id == e.auth_id {
                assert(has_auth(index, e.auth_id));
            }
        }
    }
    assert forall|e2: AuthEntryView| #[trigger] index2.contains(e2) implies (index.contains(e2)
        || e2 == e) by {
        let j = choose|j: int| 0 <= j < index2.len() && index2[j] == e2;
        if j < index.len() {
            assert(index[j] == e2);
        } else {
            assert(index2[j] == e);
        }
    }
    assert(index2[index.len() as int] == e);
    assert(has_auth(index2, e.auth_id));
    assert forall|a: Seq<char>| #[trigger] has_auth(index2, a) implies (has_auth(index, a) || a
        == e.auth_id) by {
        let j = choose|j: int| 0 <= j < index2.len() && index2[j].auth_id == a;
        if j < index.len() {
            assert(index[j].auth_id == a);
        }
    }
    assert forall|a: Seq<char>| #[trigger] has_auth(index, a) implies has_auth(index2, a) by {
        let j = choose|j: int| 0 <= j < index.len() && index[j].auth_id == a;
        assert(index2[j].auth_id == a);
    }
    assert forall|a: Seq<char>| #[trigger] has_auth(index2, a) implies entry_user(index2, a) == (
    if a == e.auth_id {
        e.user_name
    } else {
        entry_user(index, a)
    }) by {
        let j = idx_of_auth(index2, a);
        assert(0 <= j < index2.len() && index2[j].auth_id == a);
        lemma_found_auth(index2, j, a);
        if a == e.auth_id {
            if j < index.len() {
                assert(has_auth(index, e.auth_id));
            }
            assert(index2[j] == e);
        } else {
            assert(j < index.len());
            assert(index[j].auth_id == a);
            lemma_found_auth(index, j, a);
        }
    }
    assert(index_map_of(index2) =~= index_map_of(index).insert(e.auth_id, e.user_name));
}

/// The verifier: the domain parameters, the user table, and the index of
/// outstanding challenge handles.
pub struct AuthImpl {
    zkp: ZKP,
    users: Vec<UserInfo>,
    auth_index: Vec<AuthEntry>,
}

impl AuthImpl {
    /// The ghost user table.
    pub closed spec fn users_v(&self) -> Seq<UserInfoView> {
        self.users@.map_values(|u: UserInfo| u@)
    }

    /// The ghost handle index.
    pub closed spec fn index_v(&self) -> Seq<AuthEntryView> {
        self.auth_index@.map_values(|e: AuthEntry| e@)
    }

    /// The user table as a map.
    pub open spec fn umap(&self) -> Map<Seq<char>, UserInfoView> {
        users_map_of(self.users_v())
    }

    /// The handle index as a map.
    pub open spec fn imap(&self) -> Map<Seq<char>, Seq<char>> {
        index_map_of(self.index_v())
    }

    /// The domain parameters, as ghost values.
    pub closed spec fn params(&self) -> crate::zkp::ZkpView {
        self.zkp@
    }

    /// The state invariant: usable parameters, unique usernames, unique
    /// handles, and an index whose every entry points at a registered user
    /// holding that very handle.
    pub open spec fn inv(&self) -> bool {
        &&& self.params().p > 0
        &&& self.params().q > 0
        &&& names_unique(self.users_v())
        &&& auths_unique(self.index_v())
        &&& forall|j: int|
            0 <= j < self.index_v().len() ==> entry_ok(self.users_v(), #[trigger] self.index_v()[j])
    }

    /// A fresh verifier with no users and no outstanding challenges.
    pub fn new(zkp: ZKP) -> (s: AuthImpl)
        requires
            zkp.wf(),
        ensures
            s.inv(),
            s.params() == zkp@,
            s.umap() == Map::<Seq<char>, UserInfoView>::empty(),
            s.imap() == Map::<Seq<char>, Seq<char>>::empty(),
    {
        let s = AuthImpl { zkp, users: Vec::new(), auth_index: Vec::new() };
        proof {
            assert(s.umap() =~= Map::<Seq<char>, UserInfoView>::empty());
            assert(s.imap() =~= Map::<Seq<char>, Seq<char>>::empty());
        }
        s
    }

    /// The domain parameters in use.
    pub fn zkp(&self) -> (z: &ZKP)
        ensures
            z@ == self.params(),
    {
        &self.zkp
    }

    /// The position of the record for `name`, if one exists.
    fn find_user(&self, name: &String) -> (r: Option<usize>)
        ensures
            match r {
                Some(i) => i < self.users_v().len() && self.users_v()[i as int].user_name
                    == name@,
                None => !has_name(self.users_v(), name@),
            },
    {
        let n = self.users.len();
        let mut i: usize = 0;
        while i < n
            invariant
                n == self.users_v().len(),
                i <= n,
                forall|j: int| 0 <= j < i ==> self.users_v()[j].user_name != name@,
            decreases n - i,
        {
            if self.users[i].user_name == *name {
                return Some(i);
            }
            i += 1;
        }
        None
    }

    /// The position of the index entry for `auth_id`, if one exists.
    fn find_auth(&self, auth_id: &String) -> (r: Option<usize>)
        ensures
            match r {
                Some(i) => i < self.index_v().len() && self.index_v()[i as int].auth_id
                    == auth_id@,
                None => !has_auth(self.index_v(), auth_id@),
            },
    {
        let n = self.auth_index.len();
        let mut i: usize = 0;
        while i < n
            invariant
                n == self.index_v().len(),
                i <= n,
                forall|j: int| 0 <= j < i ==> self.index_v()[j].auth_id != auth_id@,
            decreases n - i,
        {
            if self.auth_index[i].auth_id == *auth_id {
                return Some(i);
            }
            i += 1;
        }
        None
    }

    /// Drops the index entry for `auth_id`, if one exists.
    fn remove_auth_entry(&mut self, auth_id: &String)
        requires
            auths_unique(old(self).index_v()),
        ensures
            final(self).users == old(self).users,
            final(self).zkp == old(self).zkp,
            auths_unique(final(self).index_v()),
            !has_auth(final(self).index_v(), auth_id@),
            final(self).imap() == old(self).imap().remove(auth_id@),
            forall|e: AuthEntryView| #[trigger]
                final(self).index_v().contains(e) ==> old(self).index_v().contains(e),
    {
        let found = self.find_auth(auth_id);
        match found {
            None => {
                proof {
                    assert(self.imap() =~= old(self).imap().remove(auth_id@));
                }
            },
            Some(i) => {
                proof {
                    lemma_found_auth(self.index_v(), i as int, auth_id@);
                }
                self.auth_index.remove(i);
                proof {
                    assert(self.index_v() =~= old(self).index_v().remove(i as int));
                    lemma_index_map_remove(old(self).index_v(), i as int);
                }
            },
        }
    }

    /// Creates or overwrites the record for `user_name` with the supplied
    /// commitment.  Registration always succeeds; an outstanding challenge
    /// of that user, if any, is discarded and its handle stops resolving.
    pub fn register(
        &mut self,
        user_name: String,
        y1: num_bigint::BigUint,
        y2: num_bigint::BigUint,
    )
        requires
            old(self).inv(),
        ensures
            final(self).inv(),
            final(self).params() == old(self).params(),
            final(self).umap() == old(self).umap().insert(
                user_name@,
                UserInfoView {
                    user_name: user_name@,
                    y1: bigval(y1),
                    y2: bigval(y2),
                    pending: None,
                },
            ),
            final(self).imap() == (if old(self).umap().contains_key(user_name@) && old(
                self,
            ).umap()[user_name@].pending is Some {
                old(self).imap().remove(old(self).umap()[user_name@].pending->Some_0.auth_id)
            } else {
                old(self).imap()
            }),
    {
        let ghost u0 = old(self).users_v();
        let found = self.find_user(&user_name);
        let rec = UserInfo { user_name, y1, y2, pending: None };
        let ghost recv = rec@;
        match found {
            None => {
                self.users.push(rec);
                proof {
                    assert(self.users_v() =~= u0.push(recv));
                    lemma_users_map_push(u0, recv);
                    assert forall|j: int|
                        0 <= j < self.index_v().len() implies entry_ok(
                        self.users_v(),
                        #[trigger] self.index_v()[j],
                    ) by {
                        let e = self.index_v()[j];
                        assert(entry_ok(u0, e));
                        if e.user_name == recv.user_name {
                            assert(has_name(u0, recv.user_name));
                        }
                        lemma_entry_ok_insert(u0, self.users_v(), recv, e);
                    }
                }
            },
            Some(i) => {
                proof {
                    lemma_found_name(u0, i as int, recv.user_name);
                }
                let old_aid: Option<String> = match &self.users[i].pending {
                    Some(p) => Some(p.auth_id.clone()),
                    None => None,
                };
                match &old_aid {
                    Some(a) => self.remove_auth_entry(a),
                    None => (),
                }
                self.users[i] = rec;
                proof {
                    assert(self.users_v() =~= u0.update(i as int, recv));
                    lemma_users_map_update(u0, i as int, recv);
                    assert forall|j: int|
                        0 <= j < self.index_v().len() implies entry_ok(
                        self.users_v(),
                        #[trigger] self.index_v()[j],
                    ) by {
                        let e = self.index_v()[j];
                        assert(self.index_v().contains(e));
                        assert(old(self).index_v().contains(e));
                        assert(entry_ok(u0, e));
                        if e.user_name == recv.user_name {
                            assert(e.auth_id == u0[i as int].pending->Some_0.auth_id);
                            assert(has_auth(self.index_v(), e.auth_id));
                            assert(false);
                        }
                        lemma_entry_ok_insert(u0, self.users_v(), recv, e);
                    }
                }
            },
        }
    }

    /// Issues a fresh challenge for `user_name` against the supplied
    /// ephemeral commitment `(r1, r2)`: a random challenge below `q` and an
    /// unpredictable handle bound to it.  A previously outstanding
    /// challenge of the same user is superseded: its handle stops
    /// resolving.  Fails with `UserNotFound` iff the username is not
    /// registered, leaving the state unchanged.
    pub fn create_authentication_challenge(
        &mut self,
        user_name: &String,
        r1: num_bigint::BigUint,
        r2: num_bigint::BigUint,
    ) -> (res: Result<(String, num_bigint::BigUint), AuthError>)
        requires
            old(self).inv(),
        ensures
            final(self).inv(),
            final(self).params() == old(self).params(),
            !old(self).umap().contains_key(user_name@) ==> res is Err && res->Err_0
                == AuthError::UserNotFound && *final(self) == *old(self),
            old(self).umap().contains_key(user_name@) ==> res is Ok && ({
                let aid = res->Ok_0.0@;
                let cv = bigval(res->Ok_0.1);
                let oldrec = old(self).umap()[user_name@];
                &&& cv < old(self).params().q
                &&& aid.len() == TOKEN_LENGTH as nat
                &&& final(self).umap() == old(self).umap().insert(
                    user_name@,
                    UserInfoView {
                        user_name: user_name@,
                        y1: oldrec.y1,
                        y2: oldrec.y2,
                        pending: Some(
                            PendingView {
                                auth_id: aid,
                                r1: bigval(r1),
                                r2: bigval(r2),
                                c: cv,
                            },
                        ),
                    },
                )
                &&& final(self).imap() == (if oldrec.pending is Some {
                    old(self).imap().remove(oldrec.pending->Some_0.auth_id)
                } else {
                    old(self).imap()
                }).insert(aid, user_name@)
            }),
    {
        let ghost u0 = old(self).users_v();
        let found = self.find_user(user_name);
        match found {
            None => {
                proof {
                    if old(self).umap().contains_key(user_name@) {
                        assert(has_name(u0, user_name@));
                    }
                }
                Err(AuthError::UserNotFound)
            },
            Some(i) => {
                proof {
                    lemma_found_name(u0, i as int, user_name@);
                }
                let c = ZKP::generate_random_number_below(&self.zkp.q);
                let auth_id = ZKP::generate_random_string(TOKEN_LENGTH);
                let name_c = self.users[i].user_name.clone();
                let y1_c = big_clone(&self.users[i].y1);
                let y2_c = big_clone(&self.users[i].y2);
                let old_aid: Option<String> = match &self.users[i].pending {
                    Some(p) => Some(p.auth_id.clone()),
                    None => None,
                };
                match &old_aid {
                    Some(a) => self.remove_auth_entry(a),
                    None => (),
                }
                let ghost index_mid = self.index_v();
                self.remove_auth_entry(&auth_id);
                let pend = PendingChallenge {
                    auth_id: auth_id.clone(),
                    r1,
                    r2,
                    c: big_clone(&c),
                };
                let rec = UserInfo { user_name: name_c, y1: y1_c, y2: y2_c, pending: Some(pend) };
                let ghost recv = rec@;
                self.users[i] = rec;
                let ghost u2 = self.users_v();
                let ghost index2 = self.index_v();
                let entry = AuthEntry { auth_id: auth_id.clone(), user_name: user_name.clone() };
                self.auth_index.push(entry);
                proof {
                    assert(u2 =~= u0.update(i as int, recv));
                    lemma_users_map_update(u0, i as int, recv);
                    assert(self.index_v() =~= index2.push(entry@));
                    lemma_index_map_push(index2, entry@);
                    let oldrec = u0[i as int];
                    let base = if oldrec.pending is Some {
                        old(self).imap().remove(oldrec.pending->Some_0.auth_id)
                    } else {
                        old(self).imap()
                    };
                    assert(self.imap() =~= base.insert(auth_id@, user_name@));
                    assert forall|j: int|
                        0 <= j < self.index_v().len() implies entry_ok(
                        u2,
                        #[trigger] self.index_v()[j],
                    ) by {
                        let e = self.index_v()[j];
                        if e == entry@ {
                            assert(has_name(u2, recv.user_name)) by {
                                assert(u2[i as int].user_name == recv.user_name);
                            }
                            lemma_found_name(u2, i as int, recv.user_name);
                        } else {
                            assert(self.index_v().contains(e));
                            assert(index2.contains(e));
                            assert(index_mid.contains(e));
                            assert(old(self).index_v().contains(e));
                            assert(entry_ok(u0, e));
                            if e.user_name == recv.user_name {
                                assert(e.auth_id == oldrec.pending->Some_0.auth_id);
                                assert(has_auth(index_mid, e.auth_id));
                                assert(false);
                            }
                            lemma_entry_ok_insert(u0, u2, recv, e);
                        }
                    }
                }
                Ok((auth_id, c))
            },
        }
    }

    /// Looks the handle up, consumes the challenge it is bound to whatever
    /// the outcome, and checks the response: a session identifier on
    /// success, `InvalidProof` when the equations fail, and
    /// `ChallengeNotFound` when the handle is unknown, already consumed or
    /// superseded — the handle never survives the call, so no challenge can
    /// be answered twice.
    pub fn verify_authentication(&mut self, auth_id: &String, s: &num_bigint::BigUint) -> (res:
        Result<String, AuthError>)
        requires
            old(self).inv(),
        ensures
            final(self).inv(),
            final(self).params() == old(self).params(),
            !final(self).imap().contains_key(auth_id@),
            !old(self).imap().contains_key(auth_id@) ==> res is Err && res->Err_0
                == AuthError::ChallengeNotFound && *final(self) == *old(self),
            old(self).imap().contains_key(auth_id@) ==> ({
                let uname = old(self).imap()[auth_id@];
                let oldrec = old(self).umap()[uname];
                let pend = oldrec.pending->Some_0;
                &&& final(self).imap() == old(self).imap().remove(auth_id@)
                &&& final(self).umap() == old(self).umap().insert(
                    uname,
                    UserInfoView {
                        user_name: oldrec.user_name,
                        y1: oldrec.y1,
                        y2: oldrec.y2,
                        pending: None,
                    },
                )
                &&& (res is Ok <==> verify_spec(
                    pend.r1,
                    pend.r2,
                    oldrec.y1,
                    oldrec.y2,
                    old(self).params().alpha,
                    old(self).params().beta,
                    pend.c,
                    bigval(*s),
                    old(self).params().p,
                ))
                &&& (res is Ok ==> res->Ok_0@.len() == TOKEN_LENGTH as nat)
                &&& (res is Err ==> res->Err_0 == AuthError::InvalidProof)
            }),
    {
        let ghost u0 = old(self).users_v();
        let found = self.find_auth(auth_id);
        match found {
            None => {
                proof {
                    if old(self).imap().contains_key(auth_id@) {
                        assert(has_auth(old(self).index_v(), auth_id@));
                    }
                }
                Err(AuthError::ChallengeNotFound)
            },
            Some(j) => {
                proof {
                    lemma_found_auth(old(self).index_v(), j as int, auth_id@);
                    assert(entry_ok(u0, old(self).index_v()[j as int]));
                }
                let uname = self.auth_index[j].user_name.clone();
                self.remove_auth_entry(auth_id);
                let found_user = self.find_user(&uname);
                match found_user {
                    None => {
                        proof {
                            assert(has_name(u0, uname@));
                            assert(false);
                        }
                        Err(AuthError::ChallengeNotFound)
                    },
                    Some(i) => {
                        proof {
                            lemma_found_name(u0, i as int, uname@);
                        }
                        let (pr1, pr2, pc) = match &self.users[i].pending {
                            Some(p) => (big_clone(&p.r1), big_clone(&p.r2), big_clone(&p.c)),
                            None => {
                                proof {
                                    assert(u0[i as int].pending is Some);
                                    assert(false);
                                }
                                return Err(AuthError::ChallengeNotFound);
                            },
                        };
                        let name_c = self.users[i].user_name.clone();
                        let y1_c = big_clone(&self.users[i].y1);
                        let y2_c = big_clone(&self.users[i].y2);
                        let rec = UserInfo { user_name: name_c, y1: y1_c, y2: y2_c, pending: None };
                        let ghost recv = rec@;
                        self.users[i] = rec;
                        let ok = self.zkp.verify(
                            &pr1,
                            &pr2,
                            &self.users[i].y1,
                            &self.users[i].y2,
                            &pc,
                            s,
                        );
                        proof {
                            assert(self.users_v() =~= u0.update(i as int, recv));
                            lemma_users_map_update(u0, i as int, recv);
                            assert forall|k: int|
                                0 <= k < self.index_v().len() implies entry_ok(
                                self.users_v(),
                                #[trigger] self.index_v()[k],
                            ) by {
                                let e = self.index_v()[k];
                                assert(self.index_v().contains(e));
                                assert(old(self).index_v().contains(e));
                                assert(entry_ok(u0, e));
                                if e.user_name == recv.user_name {
                                    assert(e.auth_id == u0[i as int].pending->Some_0.auth_id);
                                    assert(has_auth(self.index_v(), e.auth_id));
                                    assert(false);
                                }
                                lemma_entry_ok_insert(u0, self.users_v(), recv, e);
                            }
                        }
                        if ok {
                            let sid = ZKP::generate_random_string(TOKEN_LENGTH);
                            Ok(sid)
                        } else {
                            Err(AuthError::InvalidProof)
                        }
                    },
                }
            },
        }
    }
}

/// Reads a numeric protocol field carried as a big-endian byte sequence.
/// A sequence longer than `max_len` bytes is rejected as malformed before
/// any arithmetic is done on it, as the wire format requires.
pub fn decode_field(bytes: &Vec<u8>, max_len: usize) -> (r: Result<num_bigint::BigUint, AuthError>)
    ensures
        r is Ok <==> bytes@.len() <= max_len,
        r is Ok ==> bigval(r->Ok_0) == be_val(bytes@),
        r is Err ==> r->Err_0 == AuthError::MalformedInput,
{
    if bytes.len() <= max_len {
        Ok(big_from_bytes_be(bytes))
    } else {
        Err(AuthError::MalformedInput)
    }
}

/// Superseding a challenge invalidates its handle: issuing a new challenge
/// removes the user's previous handle from the index before binding the
/// fresh one, so unless the fresh handle happens to equal the old one, the
/// old handle no longer resolves — and `verify_authentication` then refuses
/// it with `ChallengeNotFound`.
pub proof fn lemma_superseded_handle_gone(
    index: Map<Seq<char>, Seq<char>>,
    old_aid: Seq<char>,
    new_aid: Seq<char>,
    user: Seq<char>,
)
    requires
        old_aid != new_aid,
    ensures
        !index.remove(old_aid).insert(new_aid, user).contains_key(old_aid),
{
}

/// A consumed challenge cannot be replayed: once a handle is removed from
/// the index, a verification attempt with it finds no challenge, and
/// `verify_authentication` refuses it with `ChallengeNotFound`, leaving the
/// state unchanged.
pub proof fn lemma_consumed_handle_gone(index: Map<Seq<char>, Seq<char>>, auth_id: Seq<char>)
    ensures
        !index.remove(auth_id).contains_key(auth_id),
{
}

} // verus!
