//! What was read of which file.
use vstd::prelude::*;

use crate::error::concat;
use crate::text::{begins_with, opt_text, same_text, starts_with};

verus! {

/// A file as it was read last.
struct Stamp {
    project: String,
    path: String,
    content: String,
}

/// The files that were read, by project id and path, with their content at
/// that time.
pub struct ReadStamps {
    stamps: Vec<Stamp>,
}

/// Whether a path is `root` or lies below it.
pub open spec fn lies_under(path: Seq<char>, root: Seq<char>) -> bool {
    path == root || begins_with(path, root + "/"@)
}

/// The stamps of a project's files at or below a path.
pub open spec fn stamps_under(project: Seq<char>, root: Seq<char>) -> Set<(Seq<char>, Seq<char>)> {
    Set::new(|key: (Seq<char>, Seq<char>)| key.0 == project && lies_under(key.1, root))
}

impl ReadStamps {
    spec fn key(self, i: int) -> (Seq<char>, Seq<char>) {
        (self.stamps@[i].project@, self.stamps@[i].path@)
    }

    spec fn at(self, key: (Seq<char>, Seq<char>), i: int) -> bool {
        0 <= i < self.stamps@.len() && self.key(i) == key
    }

    #[verifier::type_invariant]
    spec fn distinct(self) -> bool {
        distinct_stamps(self.stamps@)
    }
}

spec fn distinct_stamps(stamps: Seq<Stamp>) -> bool {
    forall|i: int, j: int|
        0 <= i < j < stamps.len() ==> (#[trigger] stamps[i]).project@ != (
        #[trigger] stamps[j]).project@ || stamps[i].path@ != stamps[j].path@
}

impl View for ReadStamps {
    type V = Map<(Seq<char>, Seq<char>), Seq<char>>;

    closed spec fn view(&self) -> Map<(Seq<char>, Seq<char>), Seq<char>> {
        Map::new(
            |key: (Seq<char>, Seq<char>)| exists|i: int| self.at(key, i),
            |key: (Seq<char>, Seq<char>)| self.stamps@[choose|i: int| self.at(key, i)].content@,
        )
    }
}

impl ReadStamps {
    proof fn lemma_entry(self, i: int)
        requires
            self.distinct(),
            0 <= i < self.stamps@.len(),
        ensures
            self@.contains_key(self.key(i)),
            self@[self.key(i)] == self.stamps@[i].content@,
    {
        let key = self.key(i);
        assert(self.at(key, i));
        let j = choose|j: int| self.at(key, j);
        if j < i {
            assert(self.stamps@[j].project@ != self.stamps@[i].project@ || self.stamps@[j].path@
                != self.stamps@[i].path@);
        }
        if i < j {
            assert(self.stamps@[i].project@ != self.stamps@[j].project@ || self.stamps@[i].path@
                != self.stamps@[j].path@);
        }
    }

    /// No file was read yet.
    pub fn new() -> (stamps: Self)
        ensures
            stamps@ == Map::<(Seq<char>, Seq<char>), Seq<char>>::empty(),
    {
        let stamps = ReadStamps { stamps: Vec::new() };
        assert(stamps@ =~= Map::<(Seq<char>, Seq<char>), Seq<char>>::empty());
        stamps
    }

    /// The place of a file's stamp, or the number of stamps.
    fn find(&self, project_id: &str, path: &str) -> (at: usize)
        ensures
            at <= self.stamps@.len(),
            at < self.stamps@.len() ==> self.key(at as int) == (project_id@, path@),
            at == self.stamps@.len() ==> forall|i: int|
                0 <= i < self.stamps@.len() ==> #[trigger] self.key(i) != (project_id@, path@),
    {
        let mut i: usize = 0;
        while i < self.stamps.len()
            invariant
                i <= self.stamps@.len(),
                forall|j: int| 0 <= j < i ==> #[trigger] self.key(j) != (project_id@, path@),
            decreases self.stamps@.len() - i,
        {
            if same_text(self.stamps[i].project.as_str(), project_id) && same_text(
                self.stamps[i].path.as_str(),
                path,
            ) {
                return i;
            }
            i += 1;
        }
        i
    }

    /// The content of a file as it was read last.
    pub fn read_stamp(&self, project_id: &str, path: &str) -> (content: Option<String>)
        ensures
            opt_text(content) == (if self@.contains_key((project_id@, path@)) {
                Some(self@[(project_id@, path@)])
            } else {
                None
            }),
    {
        let at = self.find(project_id, path);
        proof {
            use_type_invariant(self);
        }
        if at < self.stamps.len() {
            proof {
                self.lemma_entry(at as int);
            }
            Some(self.stamps[at].content.clone())
        } else {
            proof {
                let key = (project_id@, path@);
                assert forall|i: int| !self.at(key, i) by {
                    if 0 <= i < self.stamps@.len() {
                        assert(self.key(i) != key);
                    }
                }
            }
            None
        }
    }

    /// Remembers a file as it was read.
    pub fn stamp_read(&mut self, project_id: &str, path: &str, content: &str)
        ensures
            final(self)@ == old(self)@.insert((project_id@, path@), content@),
    {
        let at = self.find(project_id, path);
        proof {
            use_type_invariant(&*self);
        }
        let ghost before = *self;
        let ghost key = (project_id@, path@);
        let mut stamps: Vec<Stamp> = Vec::new();
        std::mem::swap(&mut stamps, &mut self.stamps);
        if at < stamps.len() {
            let _old = stamps.remove(at);
        }
        let stamp = Stamp {
            project: project_id.to_owned(),
            path: path.to_owned(),
            content: content.to_owned(),
        };
        let ghost kept = stamps@;
        stamps.push(stamp);
        proof {
            assert forall|i: int| 0 <= i < kept.len() implies (#[trigger] kept[i]).project@
                != project_id@ || kept[i].path@ != path@ by {
                let j = if i < at {
                    i
                } else {
                    i + 1
                };
                if at < before.stamps@.len() {
                    assert(kept[i] == before.stamps@[j]);
                    assert(before.key(at as int) == key);
                    if i < at {
                        assert(before.stamps@[j].project@ != before.stamps@[at as int].project@
                            || before.stamps@[j].path@ != before.stamps@[at as int].path@);
                    } else {
                        assert(before.stamps@[at as int].project@ != before.stamps@[j].project@
                            || before.stamps@[at as int].path@ != before.stamps@[j].path@);
                    }
                } else {
                    assert(kept[i] == before.stamps@[i]);
                    assert(before.key(i) != key);
                }
            }
            assert(distinct_stamps(kept)) by {
                assert forall|i: int, j: int| 0 <= i < j < kept.len() implies (
                #[trigger] kept[i]).project@ != (#[trigger] kept[j]).project@ || kept[i].path@
                    != kept[j].path@ by {
                    let a = if at < before.stamps@.len() && i >= at {
                        i + 1
                    } else {
                        i
                    };
                    let b = if at < before.stamps@.len() && j >= at {
                        j + 1
                    } else {
                        j
                    };
                    assert(kept[i] == before.stamps@[a]);
                    assert(kept[j] == before.stamps@[b]);
                }
            }
            assert(distinct_stamps(stamps@));
        }
        self.stamps = stamps;
        proof {
            let now = *self;
            let n = kept.len() as int;
            assert forall|k: (Seq<char>, Seq<char>)| now@.contains_key(k) <==> before@.insert(
                key,
                content@,
            ).contains_key(k) by {
                if now@.contains_key(k) {
                    let i = choose|i: int| now.at(k, i);
                    if i < n {
                        let j = if at < before.stamps@.len() && i >= at {
                            i + 1
                        } else {
                            i
                        };
                        assert(before.stamps@[j] == now.stamps@[i]);
                        assert(before.at(k, j));
                    }
                }
                if k == key {
                    assert(now.at(k, n));
                } else if before@.contains_key(k) {
                    let j = choose|j: int| before.at(k, j);
                    let i = if at < before.stamps@.len() && j > at {
                        j - 1
                    } else {
                        j
                    };
                    assert(j != at);
                    assert(now.stamps@[i] == before.stamps@[j]);
                    assert(now.at(k, i));
                }
            }
            assert forall|k: (Seq<char>, Seq<char>)| #[trigger]
                now@.contains_key(k) implies now@[k] == before@.insert(key, content@)[k] by {
                let i = choose|i: int| now.at(k, i);
                now.lemma_entry(i);
                if i == n {
                    assert(k == key);
                } else {
                    let j = if at < before.stamps@.len() && i >= at {
                        i + 1
                    } else {
                        i
                    };
                    assert(before.stamps@[j] == now.stamps@[i]);
                    before.lemma_entry(j);
                    assert(kept[i].project@ != project_id@ || kept[i].path@ != path@);
                }
            }
            assert(now@ =~= before@.insert(key, content@));
        }
    }

    /// Forgets what was read of a project at or below a path.
    pub fn drop_stamps_under(&mut self, project_id: &str, path: &str)
        ensures
            final(self)@ == old(self)@.remove_keys(stamps_under(project_id@, path@)),
    {
        let prefix = concat(path, "/");
        proof {
            use_type_invariant(&*self);
        }
        let ghost before = *self;
        let ghost gone = stamps_under(project_id@, path@);
        let mut stamps: Vec<Stamp> = Vec::new();
        std::mem::swap(&mut stamps, &mut self.stamps);
        let ghost all = stamps@;
        let mut i: usize = 0;
        // Where the stamps that stay were before.
        let ghost mut origin: Seq<int> = Seq::new(all.len(), |j: int| j);
        assert forall|k: int| 0 <= k < all.len() implies origin.contains(k) by {
            assert(origin[k] == k);
        }
        while i < stamps.len()
            invariant
                i <= stamps@.len(),
                prefix@ == path@ + "/"@,
                gone == stamps_under(project_id@, path@),
                distinct_stamps(stamps@),
                origin.len() == stamps@.len(),
                forall|j: int|
                    0 <= j < origin.len() ==> 0 <= #[trigger] origin[j] < all.len() && stamps@[j]
                        == all[origin[j]],
                forall|j: int|
                    0 <= j < i ==> !gone.contains(
                        ((#[trigger] stamps@[j]).project@, stamps@[j].path@),
                    ),
                forall|k: int|
                    0 <= k < all.len() && !gone.contains(
                        ((#[trigger] all[k]).project@, all[k].path@),
                    ) ==> origin.contains(k),
            decreases stamps@.len() - i,
        {
            let out = same_text(stamps[i].project.as_str(), project_id) && (same_text(
                stamps[i].path.as_str(),
                path,
            ) || starts_with(stamps[i].path.as_str(), prefix.as_str()));
            assert(out == gone.contains((stamps@[i as int].project@, stamps@[i as int].path@)));
            if out {
                let ghost was = stamps@;
                let ghost from = origin;
                let _old = stamps.remove(i);
                proof {
                    origin = from.remove(i as int);
                    assert forall|a: int, b: int| 0 <= a < b < stamps@.len() implies (
                    #[trigger] stamps@[a]).project@ != (#[trigger] stamps@[b]).project@
                        || stamps@[a].path@ != stamps@[b].path@ by {
                        let x = if a < i {
                            a
                        } else {
                            a + 1
                        };
                        let y = if b < i {
                            b
                        } else {
                            b + 1
                        };
                        assert(stamps@[a] == was[x]);
                        assert(stamps@[b] == was[y]);
                    }
                    assert forall|j: int| 0 <= j < origin.len() implies 0 <= #[trigger] origin[j]
                        < all.len() && stamps@[j] == all[origin[j]] by {
                        let x = if j < i {
                            j
                        } else {
                            j + 1
                        };
                        assert(origin[j] == from[x]);
                        assert(stamps@[j] == was[x]);
                    }
                    assert forall|k: int|
                        0 <= k < all.len() && !gone.contains(
                            ((#[trigger] all[k]).project@, all[k].path@),
                        ) implies origin.contains(k) by {
                        assert(from.contains(k));
                        let x = from.index_of(k);
                        assert(x != i) by {
                            if x == i {
                                assert(was[i as int] == all[k]);
                            }
                        }
                        if x < i {
                            assert(origin[x] == k);
                        } else {
                            assert(origin[x - 1] == k);
                        }
                    }
                }
            } else {
                i += 1;
            }
        }
        self.stamps = stamps;
        proof {
            let now = *self;
            assert(before.stamps@ == all);
            assert forall|k: (Seq<char>, Seq<char>)| now@.contains_key(k) <==> before@.remove_keys(
                gone,
            ).contains_key(k) by {
                if now@.contains_key(k) {
                    let j = choose|j: int| now.at(k, j);
                    assert(now.stamps@[j] == all[origin[j]]);
                    assert(before.at(k, origin[j]));
                    assert(!gone.contains((now.stamps@[j].project@, now.stamps@[j].path@)));
                }
                if before@.remove_keys(gone).contains_key(k) {
                    let m = choose|m: int| before.at(k, m);
                    assert(all[m].project@ == k.0 && all[m].path@ == k.1);
                    assert(origin.contains(m));
                    let j = origin.index_of(m);
                    assert(now.at(k, j));
                }
            }
            assert forall|k: (Seq<char>, Seq<char>)| #[trigger]
                now@.contains_key(k) implies now@[k] == before@[k] by {
                let j = choose|j: int| now.at(k, j);
                now.lemma_entry(j);
                before.lemma_entry(origin[j]);
            }
            assert(now@ =~= before@.remove_keys(gone));
        }
    }
}

/// A stamp outlives the removal of everything under another path exactly when
/// its file does not lie there.
pub proof fn stamps_elsewhere_stay(
    stamps: Map<(Seq<char>, Seq<char>), Seq<char>>,
    project: Seq<char>,
    root: Seq<char>,
    key: (Seq<char>, Seq<char>),
)
    requires
        stamps.contains_key(key),
    ensures
        stamps.remove_keys(stamps_under(project, root)).contains_key(key) <==> !(key.0 == project
            && lies_under(key.1, root)),
{
}

/// A file lies under a path when it has that path, or when a slash and more
/// stand behind the path. A name that only begins alike does not lie there.
pub proof fn files_lie_under_what_leads_to_them(root: Seq<char>, rest: Seq<char>, path: Seq<char>)
    ensures
        lies_under(root, root),
        lies_under(root + seq!['/'] + rest, root),
        rest.len() > 0 && rest[0] != '/' ==> !lies_under(root + rest, root),
        lies_under(path, root) && path != root ==> path.len() > root.len() && path.take(
            root.len() as int,
        ) == root && path[root.len() as int] == '/',
{
    reveal_strlit("/");
    assert("/"@ =~= seq!['/']);
    let n = (root + "/"@).len() as int;
    let deep = root + seq!['/'] + rest;
    assert(deep.subrange(0, n) =~= root + "/"@);
    if begins_with(path, root + "/"@) {
        assert(path.take(root.len() as int) =~= path.subrange(0, n).take(root.len() as int));
        assert((root + "/"@).take(root.len() as int) =~= root);
        assert(path.subrange(0, n)[n - 1] == '/');
    }
    if rest.len() > 0 && begins_with(root + rest, root + "/"@) {
        assert((root + rest).subrange(0, n)[n - 1] == rest[0]);
    }
}

} // verus!
