//! The directory of registered users, keyed by the user's id.

use vstd::prelude::*;
use crate::text::str_eq;
use crate::types::{User, UserModel};
use vstd::pervasive::VecAdditionalExecFns;

verus! {

/// No two users carry the same id.
pub open spec fn ids_unique(s: Seq<UserModel>) -> bool {
    forall|i: int, j: int| 0 <= i < j < s.len() ==> #[trigger] s[i].id != #[trigger] s[j].id
}

/// Some user carries this id.
pub open spec fn has_id(s: Seq<UserModel>, id: Seq<char>) -> bool {
    exists|i: int| 0 <= i < s.len() && #[trigger] s[i].id == id
}

/// The position of the user carrying this id; meaningful only under
/// `has_id`.
pub open spec fn index_of_id(s: Seq<UserModel>, id: Seq<char>) -> int {
    choose|i: int| 0 <= i < s.len() && #[trigger] s[i].id == id
}

/// The user carrying this id; meaningful only under `has_id`.
pub open spec fn user_with_id(s: Seq<UserModel>, id: Seq<char>) -> UserModel {
    s[index_of_id(s, id)]
}

/// One keyed replacement: the user carrying the new record's id is
/// overwritten, every other user stays as they were.
pub open spec fn replace_by_id(s: Seq<UserModel>, m: UserModel) -> Seq<UserModel> {
    s.map_values(|e: UserModel| if e.id == m.id {
        m
    } else {
        e
    })
}

/// Insert-or-overwrite, keyed by the id.
pub open spec fn put_by_id(s: Seq<UserModel>, m: UserModel) -> Seq<UserModel> {
    if has_id(s, m.id) {
        replace_by_id(s, m)
    } else {
        s.push(m)
    }
}

/// The collection of users, with at most one user per id.
pub struct UserDirectory {
    users: Vec<User>,
}

impl View for UserDirectory {
    type V = Seq<UserModel>;

    closed spec fn view(&self) -> Seq<UserModel> {
        self.users.deep_view()
    }
}

impl UserDirectory {
    /// The collection invariant: ids are unique keys.
    pub open spec fn wf(&self) -> bool {
        ids_unique(self@)
    }

    /// An empty directory.
    pub fn new() -> (r: UserDirectory)
        ensures
            r@ == Seq::<UserModel>::empty(),
            r.wf(),
    {
        let r = UserDirectory { users: Vec::new() };
        proof {
            assert(r@ =~= Seq::<UserModel>::empty());
        }
        r
    }

    /// How many users are registered.
    pub fn len(&self) -> (n: usize)
        ensures
            n == self@.len(),
    {
        self.users.len()
    }

    /// The user carrying `id`, if any: a point lookup by primary key.
    #[verifier::loop_isolation(false)]
    pub fn get_user(&self, id: &str) -> (r: Option<&User>)
        requires
            self.wf(),
        ensures
            r is Some <==> has_id(self@, id@),
            r matches Some(u) ==> u@ == user_with_id(self@, id@) && u@.id == id@,
    {
        let n = self.users.len();
        let mut i: usize = 0;
        while i < n
            invariant
                n == self@.len(),
                i <= n,
                n == self.users.len(),
                self.wf(),
                forall|j: int| 0 <= j < i ==> #[trigger] self@[j].id != id@,
            decreases n - i,
        {
            if str_eq(self.users[i].id.as_str(), id) {
                proof {
                    assert(self@[i as int].id == id@);
                    let k = index_of_id(self@, id@);
                    assert(0 <= k < self@.len() && self@[k].id == id@);
                    assert(k == i as int);
                }
                return Some(&self.users[i]);
            }
            i += 1;
        }
        proof {
            assert(!has_id(self@, id@));
        }
        None
    }

    /// Insert-or-overwrite, keyed by the record's id: a plain put.
    #[verifier::loop_isolation(false)]
    pub fn save_user(&mut self, user: User)
        requires
            old(self).wf(),
        ensures
            final(self)@ == put_by_id(old(self)@, user@),
            final(self).wf(),
    {
        let ghost s0 = old(self)@;
        let ghost m = user@;
        let n = self.users.len();
        let mut i: usize = 0;
        while i < n
            invariant
                n == self@.len(),
                i <= n,
                n == self.users.len(),
                self@ == s0,
                self.wf(),
                m == user@,
                forall|j: int| 0 <= j < i ==> #[trigger] self@[j].id != m.id,
            decreases n - i,
        {
            if str_eq(self.users[i].id.as_str(), user.id.as_str()) {
                proof {
                    assert(s0[i as int].id == m.id);
                    assert(has_id(s0, m.id));
                }
                self.users.set(i, user);
                proof {
                    lemma_replace_id_at(s0, m, i as int, self@);
                }
                return ;
            }
            i += 1;
        }
        proof {
            assert(!has_id(s0, m.id));
        }
        self.users.push(user);
        proof {
            assert(self@ =~= s0.push(m));
            assert(ids_unique(self@));
        }
    }
}

/// Overwriting position `at`, which carries the new record's id, is the
/// keyed replacement, and keeps the ids unique.
proof fn lemma_replace_id_at(s0: Seq<UserModel>, m: UserModel, at: int, s1: Seq<UserModel>)
    requires
        ids_unique(s0),
        0 <= at < s0.len(),
        s0[at].id == m.id,
        s1.len() == s0.len(),
        s1[at] == m,
        forall|j: int| 0 <= j < s0.len() && j != at ==> #[trigger] s1[j] == s0[j],
    ensures
        s1 == replace_by_id(s0, m),
        ids_unique(s1),
{
    assert forall|j: int| 0 <= j < s0.len() && j != at implies #[trigger] s0[j].id != m.id by {
        assert(s0[at].id == m.id);
    }
    assert forall|j: int| 0 <= j < s0.len() implies #[trigger] replace_by_id(s0, m)[j] == s1[j] by {
        if j != at {
            assert(s0[j].id != m.id);
        }
    }
    assert(s1 =~= replace_by_id(s0, m));
    assert forall|a: int, b: int| 0 <= a < b < s1.len() implies #[trigger] s1[a].id
        != #[trigger] s1[b].id by {
        assert(s1[a].id == s0[a].id);
        assert(s1[b].id == s0[b].id);
    }
}


/// The state after reading stored lines in order: each well-formed line
/// is put into the collection, each corrupt one is skipped.
pub open spec fn loaded_users(state: Seq<UserModel>, lines: Seq<Seq<u8>>) -> Seq<UserModel>
    decreases lines.len(),
{
    if lines.len() == 0 {
        state
    } else {
        match crate::records::user_of_line(lines[0]) {
            Some(m) => loaded_users(put_by_id(state, m), lines.drop_first()),
            None => loaded_users(state, lines.drop_first()),
        }
    }
}

/// How many of the stored lines are corrupt.
pub open spec fn corrupt_users_lines(lines: Seq<Seq<u8>>) -> nat
    decreases lines.len(),
{
    if lines.len() == 0 {
        0nat
    } else {
        (if crate::records::user_of_line(lines[0]) is None {
            1nat
        } else {
            0nat
        }) + corrupt_users_lines(lines.drop_first())
    }
}

/// The stored lines of the whole collection, one per record, in order.
pub open spec fn users_lines_of(s: Seq<UserModel>) -> Seq<Seq<u8>> {
    s.map_values(|m: UserModel| crate::records::user_line_of(m))
}

impl UserDirectory {
    /// Rebuild the collection from its stored lines, skipping each
    /// corrupt line; the count of skipped lines comes back beside it.
    #[verifier::loop_isolation(false)]
    pub fn from_lines(lines: &Vec<Vec<u8>>) -> (r: (UserDirectory, usize))
        ensures
            r.0@ == loaded_users(Seq::<UserModel>::empty(), lines.deep_view()),
            r.0.wf(),
            r.1 == corrupt_users_lines(lines.deep_view()),
    {
        let ghost all = lines.deep_view();
        let mut coll = UserDirectory::new();
        let mut skipped: usize = 0;
        let n = lines.len();
        let mut i: usize = 0;
        proof {
            assert(all.skip(0) =~= all);
        }
        while i < n
            invariant
                n == all.len(),
                i <= n,
                n == lines.len(),
                all == lines.deep_view(),
                coll.wf(),
                skipped <= i,
                loaded_users(Seq::<UserModel>::empty(), all) == loaded_users(
                    coll@,
                    all.skip(i as int),
                ),
                corrupt_users_lines(all) == skipped + corrupt_users_lines(all.skip(i as int)),
            decreases n - i,
        {
            let ghost rest = all.skip(i as int);
            proof {
                assert(rest[0] =~= lines[i as int]@);
                assert(rest.drop_first() =~= all.skip(i + 1));
            }
            match crate::records::decode_user(lines[i].as_slice()) {
                Some(rec) => {
                    proof {
                        assert(crate::records::user_of_line(rest[0]) == Some(rec@));
                    }
                    coll.save_user(rec);
                },
                None => {
                    proof {
                        assert(crate::records::user_of_line(rest[0]) is None);
                    }
                    skipped += 1;
                },
            }
            i += 1;
        }
        proof {
            assert(all.skip(n as int) =~= Seq::<Seq<u8>>::empty());
        }
        (coll, skipped)
    }

    /// The stored lines of the whole collection, in record order.
    #[verifier::loop_isolation(false)]
    pub fn to_lines(&self) -> (r: Vec<Vec<u8>>)
        ensures
            r.deep_view() == users_lines_of(self@),
    {
        let n = self.users.len();
        let mut out: Vec<Vec<u8>> = Vec::new();
        let mut i: usize = 0;
        proof {
            assert(out.deep_view() =~~= users_lines_of(self@.take(0)));
        }
        while i < n
            invariant
                n == self@.len(),
                i <= n,
                n == self.users.len(),
                out.deep_view() == users_lines_of(self@.take(i as int)),
            decreases n - i,
        {
            let ghost before = out.deep_view();
            out.push(crate::records::encode_user(&self.users[i]));
            proof {
                assert(self@.take(i + 1) =~= self@.take(i as int).push(self@[i as int]));
                assert(out.deep_view() =~~= before.push(crate::records::user_line_of(
                    self@[i as int],
                )));
                assert(out.deep_view() =~~= users_lines_of(self@.take(i + 1)));
            }
            i += 1;
        }
        proof {
            assert(self@.take(n as int) =~= self@);
        }
        out
    }
}

} // verus!
