//! The directed follow graph: idempotent edge insertion, exact-pair
//! removal by rebuild-on-write, and the follower listings.

use vstd::prelude::*;
use vstd::seq_lib::*;
use crate::sequences::lemma_filter_push;
use crate::text::str_eq;
use crate::types::{Follow, FollowModel};

verus! {

/// Two edges joining the same ordered pair.
pub open spec fn same_edge(a: FollowModel, b: FollowModel) -> bool {
    a.follower_id == b.follower_id && a.followed_id == b.followed_id
}

/// At most one edge per ordered pair.
pub open spec fn edges_unique(s: Seq<FollowModel>) -> bool {
    forall|i: int, j: int| 0 <= i < j < s.len() ==> !same_edge(#[trigger] s[i], #[trigger] s[j])
}

/// Some edge joins this ordered pair.
pub open spec fn has_edge(s: Seq<FollowModel>, follower_id: Seq<char>, followed_id: Seq<char>) -> bool {
    exists|i: int|
        0 <= i < s.len() && (#[trigger] s[i]).follower_id == follower_id && s[i].followed_id
            == followed_id
}

/// Idempotent insertion: a pair already joined leaves the graph as it is.
pub open spec fn add_edge(
    s: Seq<FollowModel>,
    follower_id: Seq<char>,
    followed_id: Seq<char>,
) -> Seq<FollowModel> {
    if has_edge(s, follower_id, followed_id) {
        s
    } else {
        s.push(FollowModel { follower_id, followed_id })
    }
}

/// Keeping an edge when the exact pair is removed.
pub open spec fn keep_pred(follower_id: Seq<char>, followed_id: Seq<char>) -> spec_fn(
    FollowModel,
) -> bool {
    |e: FollowModel| !(e.follower_id == follower_id && e.followed_id == followed_id)
}

/// Exact-pair removal: every other edge stays, in its order.
pub open spec fn remove_edge(
    s: Seq<FollowModel>,
    follower_id: Seq<char>,
    followed_id: Seq<char>,
) -> Seq<FollowModel> {
    s.filter(keep_pred(follower_id, followed_id))
}

/// Being an edge toward this user.
pub open spec fn followed_pred(followed_id: Seq<char>) -> spec_fn(FollowModel) -> bool {
    |e: FollowModel| e.followed_id == followed_id
}

/// Being an edge out of this user.
pub open spec fn follower_pred(follower_id: Seq<char>) -> spec_fn(FollowModel) -> bool {
    |e: FollowModel| e.follower_id == follower_id
}

/// All edges toward this user, in insertion order.
pub open spec fn edges_toward(s: Seq<FollowModel>, followed_id: Seq<char>) -> Seq<FollowModel> {
    s.filter(followed_pred(followed_id))
}

/// Who follows this user, in insertion order.
pub open spec fn followers_of(s: Seq<FollowModel>, followed_id: Seq<char>) -> Seq<Seq<char>> {
    edges_toward(s, followed_id).map_values(|e: FollowModel| e.follower_id)
}

/// Whom this user follows, in insertion order.
pub open spec fn following_of(s: Seq<FollowModel>, follower_id: Seq<char>) -> Seq<Seq<char>> {
    s.filter(follower_pred(follower_id)).map_values(|e: FollowModel| e.followed_id)
}

/// The collection of follow edges, with at most one edge per ordered pair.
pub struct FollowGraph {
    edges: Vec<Follow>,
}

impl View for FollowGraph {
    type V = Seq<FollowModel>;

    closed spec fn view(&self) -> Seq<FollowModel> {
        self.edges.deep_view()
    }
}

impl FollowGraph {
    /// The collection invariant: ordered pairs are unique keys.
    pub open spec fn wf(&self) -> bool {
        edges_unique(self@)
    }

    /// An empty graph.
    pub fn new() -> (r: FollowGraph)
        ensures
            r@ == Seq::<FollowModel>::empty(),
            r.wf(),
    {
        let r = FollowGraph { edges: Vec::new() };
        proof {
            assert(r@ =~= Seq::<FollowModel>::empty());
        }
        r
    }

    /// How many edges exist at all.
    pub fn len(&self) -> (n: usize)
        ensures
            n == self@.len(),
    {
        self.edges.len()
    }

    /// Whether `follower_id` follows `followed_id`.
    #[verifier::loop_isolation(false)]
    pub fn contains_follow(&self, follower_id: &str, followed_id: &str) -> (r: bool)
        ensures
            r == has_edge(self@, follower_id@, followed_id@),
    {
        let n = self.edges.len();
        let mut i: usize = 0;
        while i < n
            invariant
                n == self@.len(),
                i <= n,
                n == self.edges.len(),
                forall|j: int|
                    0 <= j < i ==> !((#[trigger] self@[j]).follower_id == follower_id@
                        && self@[j].followed_id == followed_id@),
            decreases n - i,
        {
            if str_eq(self.edges[i].follower_id.as_str(), follower_id) && str_eq(
                self.edges[i].followed_id.as_str(),
                followed_id,
            ) {
                proof {
                    assert(self@[i as int].follower_id == follower_id@ && self@[
                        i as int
                    ].followed_id == followed_id@);
                }
                return true;
            }
            i += 1;
        }
        false
    }

    /// Add the edge, idempotently: a pair already joined is left alone,
    /// never duplicated.  The uniqueness check runs before the insert,
    /// under the same exclusive hold.
    pub fn add_follow(&mut self, follower_id: &str, followed_id: &str)
        requires
            old(self).wf(),
        ensures
            final(self)@ == add_edge(old(self)@, follower_id@, followed_id@),
            final(self).wf(),
    {
        let ghost s0 = old(self)@;
        if self.contains_follow(follower_id, followed_id) {
            return ;
        }
        let fresh = Follow {
            follower_id: follower_id.to_owned(),
            followed_id: followed_id.to_owned(),
        };
        self.edges.push(fresh);
        proof {
            assert(self@ =~= s0.push(
                FollowModel { follower_id: follower_id@, followed_id: followed_id@ },
            ));
            assert forall|a: int, b: int| 0 <= a < b < self@.len() implies !same_edge(
                #[trigger] self@[a],
                #[trigger] self@[b],
            ) by {
                if b < s0.len() {
                    assert(!same_edge(s0[a], s0[b]));
                } else {
                    assert(!has_edge(s0, follower_id@, followed_id@));
                    assert(self@[a] == s0[a]);
                }
            }
        }
    }

    /// Remove the exact edge if present; absence is a no-op, never an
    /// error.  The whole edge set is read, filtered, and rewritten under
    /// one exclusive hold.
    #[verifier::loop_isolation(false)]
    pub fn remove_follow(&mut self, follower_id: &str, followed_id: &str)
        requires
            old(self).wf(),
        ensures
            final(self)@ == remove_edge(old(self)@, follower_id@, followed_id@),
            final(self).wf(),
    {
        let ghost s0 = old(self)@;
        let ghost pred = keep_pred(follower_id@, followed_id@);
        let n = self.edges.len();
        let mut kept: Vec<Follow> = Vec::new();
        let mut i: usize = 0;
        proof {
            assert(s0.take(0).filter(pred) =~= Seq::<FollowModel>::empty());
            assert(kept.deep_view() =~= Seq::<FollowModel>::empty());
        }
        while i < n
            invariant
                n == self@.len(),
                i <= n,
                n == self.edges.len(),
                self@ == s0,
                kept.deep_view() == s0.take(i as int).filter(pred),
            decreases n - i,
        {
            let ghost prefix = s0.take(i as int);
            let ghost here = s0[i as int];
            proof {
                assert(s0.take(i + 1) =~= prefix.push(here));
                lemma_filter_push(prefix, here, pred);
            }
            let ghost before = kept.deep_view();
            let matches_pair = str_eq(self.edges[i].follower_id.as_str(), follower_id) && str_eq(
                self.edges[i].followed_id.as_str(),
                followed_id,
            );
            if !matches_pair {
                let e = &self.edges[i];
                kept.push(Follow { follower_id: e.follower_id.clone(), followed_id: e.followed_id.clone() });
                proof {
                    assert(pred(here));
                    assert(kept.deep_view() =~= before.push(here));
                    assert(prefix.filter(pred) + seq![here] =~= before.push(here));
                    assert(kept.deep_view() =~= s0.take(i + 1).filter(pred));
                }
            } else {
                proof {
                    assert(!pred(here));
                    assert(prefix.filter(pred) + Seq::<FollowModel>::empty() =~= before);
                    assert(kept.deep_view() =~= s0.take(i + 1).filter(pred));
                }
            }
            i += 1;
        }
        proof {
            assert(s0.take(n as int) =~= s0);
        }
        self.edges = kept;
        proof {
            lemma_remove_edge_unique(s0, follower_id@, followed_id@);
        }
    }

    /// Every edge toward `followed_id`, in insertion order: the scan with
    /// the predicate "followed is this user".
    #[verifier::loop_isolation(false)]
    pub fn get_follows(&self, followed_id: &str) -> (r: Vec<&Follow>)
        ensures
            r.deep_view() == edges_toward(self@, followed_id@),
    {
        let ghost pred = followed_pred(followed_id@);
        let n = self.edges.len();
        let mut out: Vec<&Follow> = Vec::new();
        let mut i: usize = 0;
        proof {
            assert(self@.take(0).filter(pred) =~= Seq::<FollowModel>::empty());
            assert(out.deep_view() =~= Seq::<FollowModel>::empty());
        }
        while i < n
            invariant
                n == self@.len(),
                i <= n,
                n == self.edges.len(),
                pred == followed_pred(followed_id@),
                out.deep_view() == self@.take(i as int).filter(pred),
            decreases n - i,
        {
            let ghost prefix = self@.take(i as int);
            let ghost here = self@[i as int];
            proof {
                assert(self@.take(i + 1) =~= prefix.push(here));
                lemma_filter_push(prefix, here, pred);
            }
            let ghost before = out.deep_view();
            if str_eq(self.edges[i].followed_id.as_str(), followed_id) {
                out.push(&self.edges[i]);
                proof {
                    assert(pred(here));
                    assert(out.deep_view() =~= before.push(here));
                    assert(prefix.filter(pred) + seq![here] =~= before.push(here));
                    assert(out.deep_view() =~= self@.take(i + 1).filter(pred));
                }
            } else {
                proof {
                    assert(!pred(here));
                    assert(prefix.filter(pred) + Seq::<FollowModel>::empty() =~= before);
                    assert(out.deep_view() =~= self@.take(i + 1).filter(pred));
                }
            }
            i += 1;
        }
        proof {
            assert(self@.take(n as int) =~= self@);
        }
        out
    }

    /// Who follows `followed_id`, in insertion order.
    #[verifier::loop_isolation(false)]
    pub fn list_followers(&self, followed_id: &str) -> (r: Vec<String>)
        ensures
            r.deep_view() == followers_of(self@, followed_id@),
    {
        let ghost pred = followed_pred(followed_id@);
        let ghost project = |e: FollowModel| e.follower_id;
        let n = self.edges.len();
        let mut out: Vec<String> = Vec::new();
        let mut i: usize = 0;
        proof {
            assert(self@.take(0).filter(pred) =~= Seq::<FollowModel>::empty());
            assert(out.deep_view() =~= self@.take(0).filter(pred).map_values(project));
        }
        while i < n
            invariant
                n == self@.len(),
                i <= n,
                n == self.edges.len(),
                pred == followed_pred(followed_id@),
                project == (|e: FollowModel| e.follower_id),
                out.deep_view() == self@.take(i as int).filter(pred).map_values(project),
            decreases n - i,
        {
            let ghost prefix = self@.take(i as int);
            let ghost here = self@[i as int];
            proof {
                assert(self@.take(i + 1) =~= prefix.push(here));
                lemma_filter_push(prefix, here, pred);
            }
            let ghost before = out.deep_view();
            if str_eq(self.edges[i].followed_id.as_str(), followed_id) {
                out.push(self.edges[i].follower_id.clone());
                proof {
                    assert(pred(here));
                    assert(out.deep_view() =~= before.push(here.follower_id));
                    assert(prefix.filter(pred) + seq![here] =~= self@.take(i + 1).filter(pred));
                    assert((prefix.filter(pred) + seq![here]).map_values(project)
                        =~= prefix.filter(pred).map_values(project).push(here.follower_id));
                    assert(out.deep_view() =~= self@.take(i + 1).filter(pred).map_values(project));
                }
            } else {
                proof {
                    assert(!pred(here));
                    assert(prefix.filter(pred) + Seq::<FollowModel>::empty() =~= prefix.filter(
                        pred,
                    ));
                    assert(out.deep_view() =~= self@.take(i + 1).filter(pred).map_values(project));
                }
            }
            i += 1;
        }
        proof {
            assert(self@.take(n as int) =~= self@);
        }
        out
    }

    /// Whom `follower_id` follows, in insertion order: the graph's
    /// forward edges, as the map view reads them.
    #[verifier::loop_isolation(false)]
    pub fn list_following(&self, follower_id: &str) -> (r: Vec<String>)
        ensures
            r.deep_view() == following_of(self@, follower_id@),
    {
        let ghost pred = follower_pred(follower_id@);
        let ghost project = |e: FollowModel| e.followed_id;
        let n = self.edges.len();
        let mut out: Vec<String> = Vec::new();
        let mut i: usize = 0;
        proof {
            assert(self@.take(0).filter(pred) =~= Seq::<FollowModel>::empty());
            assert(out.deep_view() =~= self@.take(0).filter(pred).map_values(project));
        }
        while i < n
            invariant
                n == self@.len(),
                i <= n,
                n == self.edges.len(),
                pred == follower_pred(follower_id@),
                project == (|e: FollowModel| e.followed_id),
                out.deep_view() == self@.take(i as int).filter(pred).map_values(project),
            decreases n - i,
        {
            let ghost prefix = self@.take(i as int);
            let ghost here = self@[i as int];
            proof {
                assert(self@.take(i + 1) =~= prefix.push(here));
                lemma_filter_push(prefix, here, pred);
            }
            let ghost before = out.deep_view();
            if str_eq(self.edges[i].follower_id.as_str(), follower_id) {
                out.push(self.edges[i].followed_id.clone());
                proof {
                    assert(pred(here));
                    assert(out.deep_view() =~= before.push(here.followed_id));
                    assert(prefix.filter(pred) + seq![here] =~= self@.take(i + 1).filter(pred));
                    assert((prefix.filter(pred) + seq![here]).map_values(project)
                        =~= prefix.filter(pred).map_values(project).push(here.followed_id));
                    assert(out.deep_view() =~= self@.take(i + 1).filter(pred).map_values(project));
                }
            } else {
                proof {
                    assert(!pred(here));
                    assert(prefix.filter(pred) + Seq::<FollowModel>::empty() =~= prefix.filter(
                        pred,
                    ));
                    assert(out.deep_view() =~= self@.take(i + 1).filter(pred).map_values(project));
                }
            }
            i += 1;
        }
        proof {
            assert(self@.take(n as int) =~= self@);
        }
        out
    }
}

/// Removal keeps the pairs unique: the kept edges are a subsequence of a
/// sequence whose pairs were unique.
pub proof fn lemma_remove_edge_unique(
    s: Seq<FollowModel>,
    follower_id: Seq<char>,
    followed_id: Seq<char>,
)
    requires
        edges_unique(s),
    ensures
        edges_unique(remove_edge(s, follower_id, followed_id)),
    decreases s.len(),
{
    reveal_with_fuel(Seq::filter, 2);
    let pred = keep_pred(follower_id, followed_id);
    if s.len() == 0 {
    } else {
        let prefix = s.drop_last();
        assert(edges_unique(prefix));
        lemma_remove_edge_unique(prefix, follower_id, followed_id);
        let kept_prefix = prefix.filter(pred);
        if pred(s.last()) {
            assert(s.filter(pred) == kept_prefix.push(s.last()));
            assert forall|a: int, b: int|
                0 <= a < b < s.filter(pred).len() implies !same_edge(
                #[trigger] s.filter(pred)[a],
                #[trigger] s.filter(pred)[b],
            ) by {
                if b < kept_prefix.len() {
                    assert(!same_edge(kept_prefix[a], kept_prefix[b]));
                } else {
                    assert(s.filter(pred)[b] == s.last());
                    crate::sequences::lemma_filter_subset(prefix, pred);
                    assert(prefix.contains(kept_prefix[a]));
                    let k = choose|k: int| 0 <= k < prefix.len() && prefix[k] == kept_prefix[a];
                    assert(s[k] == prefix[k]);
                    assert(!same_edge(s[k], s[s.len() - 1]));
                }
            }
        } else {
            assert(s.filter(pred) == kept_prefix);
        }
    }
}


/// The state after reading stored lines in order: each well-formed line
/// is put into the collection, each corrupt one is skipped.
pub open spec fn loaded_follow(state: Seq<FollowModel>, lines: Seq<Seq<u8>>) -> Seq<FollowModel>
    decreases lines.len(),
{
    if lines.len() == 0 {
        state
    } else {
        match crate::records::follow_of_line(lines[0]) {
            Some(m) => loaded_follow(add_edge(state, m.follower_id, m.followed_id), lines.drop_first()),
            None => loaded_follow(state, lines.drop_first()),
        }
    }
}

/// How many of the stored lines are corrupt.
pub open spec fn corrupt_follow_lines(lines: Seq<Seq<u8>>) -> nat
    decreases lines.len(),
{
    if lines.len() == 0 {
        0nat
    } else {
        (if crate::records::follow_of_line(lines[0]) is None {
            1nat
        } else {
            0nat
        }) + corrupt_follow_lines(lines.drop_first())
    }
}

/// The stored lines of the whole collection, one per record, in order.
pub open spec fn follow_lines_of(s: Seq<FollowModel>) -> Seq<Seq<u8>> {
    s.map_values(|m: FollowModel| crate::records::follow_line_of(m))
}

impl FollowGraph {
    /// Rebuild the collection from its stored lines, skipping each
    /// corrupt line; the count of skipped lines comes back beside it.
    #[verifier::loop_isolation(false)]
    pub fn from_lines(lines: &Vec<Vec<u8>>) -> (r: (FollowGraph, usize))
        ensures
            r.0@ == loaded_follow(Seq::<FollowModel>::empty(), lines.deep_view()),
            r.0.wf(),
            r.1 == corrupt_follow_lines(lines.deep_view()),
    {
        let ghost all = lines.deep_view();
        let mut coll = FollowGraph::new();
        let mut skipped: usize = 0;
        let n = lines.len();
        let mut i: usize = 0;
        proof {
            assert(all.skip(0) =~= all);
        }
        while i < n
            invariant
                n == all.len(),
                i <= n,
                n == lines.len(),
                all == lines.deep_view(),
                coll.wf(),
                skipped <= i,
                loaded_follow(Seq::<FollowModel>::empty(), all) == loaded_follow(
                    coll@,
                    all.skip(i as int),
                ),
                corrupt_follow_lines(all) == skipped + corrupt_follow_lines(all.skip(i as int)),
            decreases n - i,
        {
            let ghost rest = all.skip(i as int);
            proof {
                assert(rest[0] =~= lines[i as int]@);
                assert(rest.drop_first() =~= all.skip(i + 1));
            }
            match crate::records::decode_follow(lines[i].as_slice()) {
                Some(rec) => {
                    proof {
                        assert(crate::records::follow_of_line(rest[0]) == Some(rec@));
                    }
                    coll.add_follow(rec.follower_id.as_str(), rec.followed_id.as_str());
                },
                None => {
                    proof {
                        assert(crate::records::follow_of_line(rest[0]) is None);
                    }
                    skipped += 1;
                },
            }
            i += 1;
        }
        proof {
            assert(all.skip(n as int) =~= Seq::<Seq<u8>>::empty());
        }
        (coll, skipped)
    }

    /// The stored lines of the whole collection, in record order.
    #[verifier::loop_isolation(false)]
    pub fn to_lines(&self) -> (r: Vec<Vec<u8>>)
        ensures
            r.deep_view() == follow_lines_of(self@),
    {
        let n = self.edges.len();
        let mut out: Vec<Vec<u8>> = Vec::new();
        let mut i: usize = 0;
        proof {
            assert(out.deep_view() =~~= follow_lines_of(self@.take(0)));
        }
        while i < n
            invariant
                n == self@.len(),
                i <= n,
                n == self.edges.len(),
                out.deep_view() == follow_lines_of(self@.take(i as int)),
            decreases n - i,
        {
            let ghost before = out.deep_view();
            out.push(crate::records::encode_follow(&self.edges[i]));
            proof {
                assert(self@.take(i + 1) =~= self@.take(i as int).push(self@[i as int]));
                assert(out.deep_view() =~~= before.push(crate::records::follow_line_of(
                    self@[i as int],
                )));
                assert(out.deep_view() =~~= follow_lines_of(self@.take(i + 1)));
            }
            i += 1;
        }
        proof {
            assert(self@.take(n as int) =~= self@);
        }
        out
    }
}

} // verus!
