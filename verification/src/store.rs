//! The record store: a keyed in-memory collection of user records.
//!
//! Records are held in insertion order in a vector whose ids are pairwise
//! distinct; the mathematical content of the store is the map from id to
//! record (`id_map`) together with the order of the records, which fixes
//! which of several equal usernames a secondary lookup returns.

use vstd::prelude::*;
use vstd::string::StringExecFns;
use vstd::utf8::encode_utf8;

verus! {

/// One stored entity: identifier, username, email and a sensitive text
/// field. The store places no constraint on the content of the text
/// fields; in particular the secret is held exactly as given.
#[derive(Debug)]
pub struct User {
    pub id: u32,
    pub username: String,
    pub email: String,
    pub secret: String,
}

/// The mathematical image of a `User`: the id and the three text fields
/// as sequences of characters.
pub struct UserView {
    pub id: u32,
    pub username: Seq<char>,
    pub email: Seq<char>,
    pub secret: Seq<char>,
}

impl View for User {
    type V = UserView;

    open spec fn view(&self) -> UserView {
        UserView {
            id: self.id,
            username: self.username@,
            email: self.email@,
            secret: self.secret@,
        }
    }
}

/// No two records of the sequence share an id.
pub open spec fn unique_ids(s: Seq<UserView>) -> bool {
    forall|i: int, j: int| 0 <= i < j < s.len() ==> s[i].id != s[j].id
}

/// The map from id to record described by a sequence of records; a later
/// record with the same id shadows an earlier one.
pub open spec fn id_map(s: Seq<UserView>) -> Map<u32, UserView>
    decreases s.len(),
{
    if s.len() == 0 {
        Map::empty()
    } else {
        id_map(s.drop_last()).insert(s.last().id, s.last())
    }
}

/// The first record of the sequence whose username is `name`, if any.
pub open spec fn first_with_username(s: Seq<UserView>, name: Seq<char>) -> Option<UserView>
    decreases s.len(),
{
    if s.len() == 0 {
        None
    } else if s[0].username == name {
        Some(s[0])
    } else {
        first_with_username(s.drop_first(), name)
    }
}

/// An id is in the domain of `id_map` exactly when some record carries it.
pub proof fn lemma_id_map_domain(s: Seq<UserView>)
    ensures
        forall|k: u32|
            #[trigger] id_map(s).contains_key(k) <==> exists|i: int|
                0 <= i < s.len() && #[trigger] s[i].id == k,
    decreases s.len(),
{
    if s.len() > 0 {
        let t = s.drop_last();
        lemma_id_map_domain(t);
        assert(id_map(s) == id_map(t).insert(s.last().id, s.last()));
        assert forall|k: u32| #[trigger] id_map(s).contains_key(k) implies exists|i: int|
            0 <= i < s.len() && #[trigger] s[i].id == k by {
            if k == s.last().id {
                assert(s[s.len() - 1].id == k);
            } else {
                assert(id_map(t).contains_key(k));
                let i = choose|i: int| 0 <= i < t.len() && #[trigger] t[i].id == k;
                assert(s[i] == t[i]);
                assert(s[i].id == k);
            }
        }
        assert forall|k: u32|
            (exists|i: int| 0 <= i < s.len() && #[trigger] s[i].id == k) implies #[trigger] id_map(
            s,
        ).contains_key(k) by {
            let i = choose|i: int| 0 <= i < s.len() && #[trigger] s[i].id == k;
            if i < s.len() - 1 {
                assert(t[i].id == k);
            }
        }
    }
}

/// Under unique ids, `id_map` sends each record's id to that record.
pub proof fn lemma_id_map_index(s: Seq<UserView>, i: int)
    requires
        unique_ids(s),
        0 <= i < s.len(),
    ensures
        id_map(s).contains_key(s[i].id),
        id_map(s)[s[i].id] == s[i],
    decreases s.len(),
{
    let t = s.drop_last();
    if i == s.len() - 1 {
        assert(id_map(s).contains_key(s.last().id));
    } else {
        assert(unique_ids(t)) by {
            assert(forall|p: int, q: int|
                0 <= p < q < t.len() ==> t[p] == s[p] && t[q] == s[q]);
        }
        lemma_id_map_index(t, i);
        assert(s[i].id != s.last().id);
    }
}

/// Replacing the record at an index by one with the same id keeps the ids
/// unique and turns `id_map` into the map with that id re-bound.
pub proof fn lemma_id_map_update(s: Seq<UserView>, i: int, u: UserView)
    requires
        unique_ids(s),
        0 <= i < s.len(),
        s[i].id == u.id,
    ensures
        unique_ids(s.update(i, u)),
        id_map(s.update(i, u)) == id_map(s).insert(u.id, u),
{
    let t = s.update(i, u);
    assert(unique_ids(t)) by {
        assert(forall|j: int| 0 <= j < s.len() ==> #[trigger] t[j].id == s[j].id);
    }
    lemma_id_map_domain(s);
    lemma_id_map_domain(t);
    assert forall|k: u32| #[trigger] id_map(t).contains_key(k) implies id_map(s).insert(
        u.id,
        u,
    ).contains_key(k) && id_map(t)[k] == id_map(s).insert(u.id, u)[k] by {
        let j = choose|j: int| 0 <= j < t.len() && #[trigger] t[j].id == k;
        lemma_id_map_index(t, j);
        if j == i {
            assert(id_map(t)[k] == u);
        } else {
            assert(s[j].id == k);
            lemma_id_map_index(s, j);
            assert(k != u.id);
            assert(id_map(t)[k] == s[j]);
        }
    }
    assert forall|k: u32| #[trigger] id_map(s).insert(u.id, u).contains_key(k) implies id_map(
        t,
    ).contains_key(k) by {
        if k == u.id {
            assert(t[i].id == k);
        } else {
            let j = choose|j: int| 0 <= j < s.len() && #[trigger] s[j].id == k;
            assert(t[j].id == k);
        }
    }
    assert(id_map(t) =~= id_map(s).insert(u.id, u));
}

/// Appending a record with a fresh id keeps the ids unique and binds the
/// new id in `id_map`.
pub proof fn lemma_id_map_push(s: Seq<UserView>, u: UserView)
    requires
        unique_ids(s),
        forall|i: int| 0 <= i < s.len() ==> #[trigger] s[i].id != u.id,
    ensures
        unique_ids(s.push(u)),
        id_map(s.push(u)) == id_map(s).insert(u.id, u),
{
    let t = s.push(u);
    assert(forall|j: int| 0 <= j < s.len() ==> t[j] == s[j]);
    assert(t[s.len() as int] == u);
    assert(unique_ids(t));
    assert(t.drop_last() =~= s);
    assert(t.last() == u);
}

/// Law: after a record is stored, exact-key lookup at its id yields that
/// very record, and the binding of every other id is untouched. Over the
/// contracts of `add_user` (which rebinds `u.id` in `id_map`) and
/// `get_by_id` (which returns the binding of the id asked for), this is
/// the insert/lookup round trip.
pub proof fn lemma_insert_then_lookup(m: Map<u32, UserView>, u: UserView)
    ensures
        m.insert(u.id, u).contains_key(u.id),
        m.insert(u.id, u)[u.id] == u,
        forall|k: u32|
            k != u.id ==> (#[trigger] m.insert(u.id, u).contains_key(k) <==> m.contains_key(k)),
        forall|k: u32|
            k != u.id && m.contains_key(k) ==> #[trigger] m.insert(u.id, u)[k] == m[k],
{
}

/// Law: storing a record whose id is already present replaces the old
/// record in place — the store does not grow, the new record is the one
/// found afterwards, and no other id changes its binding.
pub proof fn lemma_overwrite(s: Seq<UserView>, i: int, u: UserView)
    requires
        unique_ids(s),
        0 <= i < s.len(),
        s[i].id == u.id,
    ensures
        s.update(i, u).len() == s.len(),
        id_map(s.update(i, u)) == id_map(s).insert(u.id, u),
        id_map(s.update(i, u))[u.id] == u,
        forall|k: u32|
            k != u.id && id_map(s).contains_key(k) ==> #[trigger] id_map(s.update(i, u))[k]
                == id_map(s)[k],
{
    lemma_id_map_update(s, i, u);
}

/// Law: the secondary lookup finds a record exactly when some stored
/// record carries the username, and then it returns one single record of
/// the store with exactly that username — on an empty store, or one with
/// no match, it finds nothing.
pub proof fn lemma_find_match(s: Seq<UserView>, name: Seq<char>)
    ensures
        (first_with_username(s, name) is Some) <==> exists|i: int|
            0 <= i < s.len() && #[trigger] s[i].username == name,
        first_with_username(s, name) matches Some(u) ==> u.username == name && exists|i: int|
            0 <= i < s.len() && #[trigger] s[i] == u,
    decreases s.len(),
{
    if s.len() > 0 {
        let t = s.drop_first();
        lemma_find_match(t, name);
        if s[0].username == name {
        } else {
            assert forall|i: int| 0 <= i < t.len() implies t[i] == s[i + 1] by {}
            if first_with_username(s, name) is Some {
                let u = first_with_username(t, name)->Some_0;
                let i = choose|i: int| 0 <= i < t.len() && #[trigger] t[i] == u;
                assert(s[i + 1] == u);
                let j = choose|j: int| 0 <= j < t.len() && #[trigger] t[j].username == name;
                assert(s[j + 1].username == name);
            }
            if exists|i: int| 0 <= i < s.len() && #[trigger] s[i].username == name {
                let i = choose|i: int| 0 <= i < s.len() && #[trigger] s[i].username == name;
                assert(i != 0);
                assert(t[i - 1].username == name);
            }
        }
    }
}

/// Law: the secondary lookup is deterministic under no mutation. The
/// contract of `find_user_by_username` pins every result to
/// `first_with_username` of the store's contents, so any two calls on an
/// unmodified store return the same record.
pub proof fn lemma_find_deterministic(
    s: Seq<UserView>,
    name: Seq<char>,
    r1: Option<UserView>,
    r2: Option<UserView>,
)
    requires
        r1 == first_with_username(s, name),
        r2 == first_with_username(s, name),
    ensures
        r1 == r2,
{
}

/// The in-memory store of user records, keyed by `User::id`.
pub struct UserDatabase {
    users: Vec<User>,
}

impl View for UserDatabase {
    type V = Seq<UserView>;

    closed spec fn view(&self) -> Seq<UserView> {
        self.users@.map_values(|u: User| u@)
    }
}

impl UserDatabase {
    /// The store's invariant: at most one record per id.
    pub open spec fn wf(&self) -> bool {
        unique_ids(self@)
    }

    /// Creates an empty store.
    pub fn new() -> (db: UserDatabase)
        ensures
            db@ == Seq::<UserView>::empty(),
            db.wf(),
    {
        let db = UserDatabase { users: Vec::new() };
        proof {
            assert(db@ =~= Seq::<UserView>::empty());
        }
        db
    }

    /// The number of records currently stored.
    pub fn len(&self) -> (n: usize)
        ensures
            n == self@.len(),
    {
        self.users.len()
    }

    /// Stores the record under its id, replacing any record that already
    /// carries the same id; a record with a fresh id goes to the end of
    /// the iteration order. Insertion always succeeds.
    pub fn add_user(&mut self, user: User)
        requires
            old(self).wf(),
        ensures
            final(self).wf(),
            id_map(final(self)@) == id_map(old(self)@).insert(user@.id, user@),
            id_map(old(self)@).contains_key(user@.id) ==> final(self)@.len() == old(self)@.len()
                && exists|i: int|
                0 <= i < old(self)@.len() && old(self)@[i].id == user@.id && final(self)@ == old(
                self,
            )@.update(i, user@),
            !id_map(old(self)@).contains_key(user@.id) ==> final(self)@ == old(self)@.push(user@),
    {
        let ghost s0 = old(self)@;
        proof {
            lemma_id_map_domain(s0);
        }
        let n = self.users.len();
        let mut i: usize = 0;
        while i < n
            invariant
                s0 == old(self)@,
                n == s0.len(),
                self@ == s0,
                0 <= i <= n,
                unique_ids(s0),
                forall|j: int| 0 <= j < i ==> #[trigger] s0[j].id != user@.id,
            decreases n - i,
        {
            if self.users[i].id == user.id {
                proof {
                    assert(s0[i as int].id == user@.id);
                    lemma_id_map_index(s0, i as int);
                    lemma_id_map_update(s0, i as int, user@);
                }
                self.users[i] = user;
                proof {
                    assert(self@ =~= s0.update(i as int, user@));
                    assert(id_map(self@) == id_map(s0).insert(user@.id, user@));
                    assert(id_map(s0).contains_key(user@.id));
                    assert(self@.len() == s0.len());
                }
                return ;
            }
            i += 1;
        }
        proof {
            lemma_id_map_push(s0, user@);
        }
        self.users.push(user);
        proof {
            assert(self@ =~= s0.push(user@));
        }
    }

    /// Exact-key lookup: a read-only view of the record stored under the
    /// given id, or `None` when no record carries it.
    pub fn get_by_id(&self, id: u32) -> (r: Option<&User>)
        requires
            self.wf(),
        ensures
            match r {
                Some(u) => id_map(self@).contains_key(id) && u@ == id_map(self@)[id],
                None => !id_map(self@).contains_key(id),
            },
    {
        let n = self.users.len();
        let mut i: usize = 0;
        while i < n
            invariant
                n == self@.len(),
                0 <= i <= n,
                self.wf(),
                forall|j: int| 0 <= j < i ==> #[trigger] self@[j].id != id,
            decreases n - i,
        {
            if self.users[i].id == id {
                proof {
                    lemma_id_map_index(self@, i as int);
                }
                return Some(&self.users[i]);
            }
            i += 1;
        }
        proof {
            lemma_id_map_domain(self@);
        }
        None
    }

    /// Secondary lookup: the first record, in the store's iteration
    /// order, whose username equals the given text; `None` when no record
    /// matches. The result is a function of the store's contents alone,
    /// so repeated calls on an unmodified store return the same record.
    pub fn find_user_by_username(&self, username: &str) -> (r: Option<&User>)
        ensures
            match r {
                Some(u) => first_with_username(self@, username@) == Some(u@),
                None => first_with_username(self@, username@) is None && forall|j: int|
                    0 <= j < self@.len() ==> #[trigger] self@[j].username != username@,
            },
    {
        let name = String::from_str(username);
        let n = self.users.len();
        let mut i: usize = 0;
        proof {
            assert(self@.skip(0) =~= self@);
        }
        while i < n
            invariant
                n == self@.len(),
                0 <= i <= n,
                name@ == username@,
                first_with_username(self@, username@) == first_with_username(
                    self@.skip(i as int),
                    username@,
                ),
                forall|j: int| 0 <= j < i ==> #[trigger] self@[j].username != username@,
            decreases n - i,
        {
            if self.users[i].username == name {
                proof {
                    assert(self@.skip(i as int)[0] == self@[i as int]);
                }
                return Some(&self.users[i]);
            }
            proof {
                assert(self@.skip(i as int)[0] == self@[i as int]);
                assert(self@.skip(i as int).drop_first() =~= self@.skip(i as int + 1));
            }
            i += 1;
        }
        proof {
            assert(self@.skip(n as int) =~= Seq::<UserView>::empty());
        }
        None
    }

    /// The record at the given position of the store's iteration order.
    pub fn record_at(&self, i: usize) -> (u: &User)
        requires
            i < self@.len(),
        ensures
            u@ == self@[i as int],
    {
        &self.users[i]
    }

    /// A safe, read-only byte view of the sensitive field of the record
    /// stored under the given id: its text encoded as UTF-8, with no
    /// pointer or lifetime leaked.
    pub fn get_user_password(&self, user_id: u32) -> (r: Option<&[u8]>)
        requires
            self.wf(),
        ensures
            match r {
                Some(b) => id_map(self@).contains_key(user_id) && b@ == encode_utf8(
                    id_map(self@)[user_id].secret,
                ),
                None => !id_map(self@).contains_key(user_id),
            },
    {
        match self.get_by_id(user_id) {
            Some(u) => Some(u.secret.as_str().as_bytes()),
            None => None,
        }
    }
}

} // verus!
