//! The blob store: durable byte storage addressed by a path derived from
//! (bucket, key), with atomic visibility of writes — a reader sees either the
//! whole byte sequence last committed under a path or nothing. The store
//! never interprets content; path derivation (and its injectivity) lives in
//! the text module, and key validation rejects `..` segments so a derived
//! path can never escape its bucket's subtree.

use vstd::prelude::*;

use crate::text::{is_prefix_of, str_eq, str_has_prefix};

verus! {

/// Path `p` holds bytes `d` in the entries.
pub open spec fn stored(es: Seq<(String, Vec<u8>)>, p: Seq<char>, d: Seq<u8>) -> bool {
    exists|i: int| 0 <= i < es.len() && (#[trigger] es[i]).0@ == p && es[i].1@ == d
}

/// Some bytes are stored under path `p`.
pub open spec fn has_path(es: Seq<(String, Vec<u8>)>, p: Seq<char>) -> bool {
    exists|i: int| 0 <= i < es.len() && (#[trigger] es[i]).0@ == p
}

pub open spec fn has_ns(ns: Seq<String>, n: Seq<char>) -> bool {
    exists|i: int| 0 <= i < ns.len() && (#[trigger] ns[i])@ == n
}

/// Path `p` lies in the subtree of namespace `ns`.
pub open spec fn under_ns(p: Seq<char>, ns: Seq<char>) -> bool {
    is_prefix_of(ns + seq!['/'], p)
}

/// Byte-sequence equality.
pub fn bytes_eq(a: &[u8], b: &[u8]) -> (r: bool)
    ensures
        r == (a@ == b@),
{
    let n = a.len();
    if n != b.len() {
        return false;
    }
    let mut i: usize = 0;
    while i < n
        invariant
            i <= n,
            n == a@.len(),
            n == b@.len(),
            forall|j: int| 0 <= j < i ==> a@[j] == b@[j],
        decreases n - i,
    {
        if a[i] != b[i] {
            return false;
        }
        i = i + 1;
    }
    proof {
        assert(a@ =~= b@);
    }
    true
}

/// An in-memory blob store.
pub struct BlobStore {
    pub namespaces: Vec<String>,
    pub entries: Vec<(String, Vec<u8>)>,
}

impl BlobStore {
    /// Well-formedness: one entry per path, one row per namespace.
    pub open spec fn wf(self) -> bool {
        &&& forall|i: int, j: int|
            0 <= i < j < self.entries@.len() ==> (#[trigger] self.entries@[i]).0@ != (
            #[trigger] self.entries@[j]).0@
        &&& forall|i: int, j: int|
            0 <= i < j < self.namespaces@.len() ==> (#[trigger] self.namespaces@[i])@ != (
            #[trigger] self.namespaces@[j])@
    }

    /// A fresh, empty store.
    pub fn new() -> (b: BlobStore)
        ensures
            b.wf(),
            b.entries@.len() == 0,
            b.namespaces@.len() == 0,
    {
        BlobStore { namespaces: Vec::new(), entries: Vec::new() }
    }

    fn find_path(&self, path: &str) -> (r: Option<usize>)
        ensures
            match r {
                Some(i) => i < self.entries@.len() && self.entries@[i as int].0@ == path@,
                None => !has_path(self.entries@, path@),
            },
    {
        let n = self.entries.len();
        let mut i: usize = 0;
        while i < n
            invariant
                i <= n,
                n == self.entries@.len(),
                forall|j: int| 0 <= j < i ==> (#[trigger] self.entries@[j]).0@ != path@,
            decreases n - i,
        {
            if str_eq(self.entries[i].0.as_str(), path) {
                return Some(i);
            }
            i = i + 1;
        }
        None
    }

    /// Does the namespace exist?
    pub fn namespace_exists(&self, name: &str) -> (r: bool)
        ensures
            r == has_ns(self.namespaces@, name@),
    {
        let n = self.namespaces.len();
        let mut i: usize = 0;
        while i < n
            invariant
                i <= n,
                n == self.namespaces@.len(),
                forall|j: int| 0 <= j < i ==> (#[trigger] self.namespaces@[j])@ != name@,
            decreases n - i,
        {
            if str_eq(self.namespaces[i].as_str(), name) {
                return true;
            }
            i = i + 1;
        }
        false
    }

    /// Create the namespace; no effect when it already exists.
    pub fn create_namespace(&mut self, name: &str)
        requires
            old(self).wf(),
        ensures
            final(self).wf(),
            final(self).entries@ == old(self).entries@,
            has_ns(final(self).namespaces@, name@),
            forall|q: Seq<char>|
                q != name@ ==> (has_ns(final(self).namespaces@, q) == has_ns(
                    old(self).namespaces@,
                    q,
                )),
            has_ns(old(self).namespaces@, name@) ==> final(self).namespaces@ == old(
                self,
            ).namespaces@,
    {
        if self.namespace_exists(name) {
            return ;
        }
        self.namespaces.push(String::from_str(name));
        proof {
            let os = old(self).namespaces@;
            let ns = self.namespaces@;
            assert(ns[ns.len() - 1]@ == name@);
            assert forall|q: Seq<char>| q != name@ implies (has_ns(ns, q) == has_ns(os, q)) by {
                if has_ns(ns, q) {
                    let w = choose|w: int| 0 <= w < ns.len() && (#[trigger] ns[w])@ == q;
                    assert(w < ns.len() - 1);
                    assert(os[w]@ == q);
                }
                if has_ns(os, q) {
                    let w = choose|w: int| 0 <= w < os.len() && (#[trigger] os[w])@ == q;
                    assert(ns[w]@ == q);
                }
            }
        }
    }

    /// Remove the bytes under `path`; reports whether anything was there.
    pub fn delete(&mut self, path: &str) -> (r: bool)
        requires
            old(self).wf(),
        ensures
            final(self).wf(),
            final(self).namespaces@ == old(self).namespaces@,
            r == has_path(old(self).entries@, path@),
            !has_path(final(self).entries@, path@),
            forall|q: Seq<char>, d: Seq<u8>|
                q != path@ ==> (stored(final(self).entries@, q, d) == stored(
                    old(self).entries@,
                    q,
                    d,
                )),
            forall|q: Seq<char>|
                q != path@ ==> (has_path(final(self).entries@, q) == has_path(
                    old(self).entries@,
                    q,
                )),
    {
        match self.find_path(path) {
            Some(i) => {
                proof {
                    self.entries@.remove_ensures(i as int);
                }
                self.entries.remove(i);
                proof {
                    let es = old(self).entries@;
                    let ns = self.entries@;
                    assert forall|w: int| 0 <= w < ns.len() implies (#[trigger] ns[w]).0@ != path@
                        by {
                        if w < i {
                            assert(ns[w] == es[w]);
                        } else {
                            assert(ns[w] == es[w + 1]);
                        }
                    }
                    assert forall|q: Seq<char>, d: Seq<u8>| q != path@ implies (stored(ns, q, d)
                        == stored(es, q, d)) by {
                        if stored(ns, q, d) {
                            let w = choose|w: int|
                                0 <= w < ns.len() && (#[trigger] ns[w]).0@ == q && ns[w].1@ == d;
                            if w < i {
                                assert(es[w].0@ == q && es[w].1@ == d);
                            } else {
                                assert(es[w + 1].0@ == q && es[w + 1].1@ == d);
                            }
                        }
                        if stored(es, q, d) {
                            let w = choose|w: int|
                                0 <= w < es.len() && (#[trigger] es[w]).0@ == q && es[w].1@ == d;
                            if w < i {
                                assert(ns[w] == es[w]);
                            } else {
                                assert(ns[w - 1] == es[w]);
                            }
                        }
                    }
                    assert forall|q: Seq<char>| q != path@ implies (has_path(ns, q) == has_path(
                        es,
                        q,
                    )) by {
                        if has_path(ns, q) {
                            let w = choose|w: int| 0 <= w < ns.len() && (#[trigger] ns[w]).0@ == q;
                            assert(stored(ns, q, ns[w].1@));
                            assert(stored(es, q, ns[w].1@));
                        }
                        if has_path(es, q) {
                            let w = choose|w: int| 0 <= w < es.len() && (#[trigger] es[w]).0@ == q;
                            assert(stored(es, q, es[w].1@));
                            assert(stored(ns, q, es[w].1@));
                        }
                    }
                }
                true
            },
            None => false,
        }
    }

    /// Commit `data` under `path`, atomically replacing whatever was there.
    /// After the call exactly `data` is stored under `path` and every other
    /// path holds what it held before.
    pub fn write(&mut self, path: &str, data: &[u8])
        requires
            old(self).wf(),
        ensures
            final(self).wf(),
            final(self).namespaces@ == old(self).namespaces@,
            stored(final(self).entries@, path@, data@),
            has_path(final(self).entries@, path@),
            forall|q: Seq<char>, d: Seq<u8>|
                q != path@ ==> (stored(final(self).entries@, q, d) == stored(
                    old(self).entries@,
                    q,
                    d,
                )),
            forall|q: Seq<char>|
                q != path@ ==> (has_path(final(self).entries@, q) == has_path(
                    old(self).entries@,
                    q,
                )),
            forall|d: Seq<u8>| stored(final(self).entries@, path@, d) ==> d == data@,
    {
        let _ = self.delete(path);
        let ghost mid = self.entries@;
        let mut owned: Vec<u8> = Vec::new();
        owned.extend_from_slice(data);
        proof {
            assert(owned@ =~= data@);
        }
        self.entries.push((String::from_str(path), owned));
        proof {
            let ns = self.entries@;
            assert(ns[ns.len() - 1].0@ == path@ && ns[ns.len() - 1].1@ == data@);
            assert forall|x: int, y: int| 0 <= x < y < ns.len() implies (#[trigger] ns[x]).0@ != (
            #[trigger] ns[y]).0@ by {
                if y < ns.len() - 1 {
                    assert(ns[x] == mid[x] && ns[y] == mid[y]);
                } else {
                    assert(ns[x] == mid[x]);
                    assert(!has_path(mid, path@));
                    assert(stored(mid, mid[x].0@, mid[x].1@));
                }
            }
            assert forall|q: Seq<char>, d: Seq<u8>| q != path@ implies (stored(ns, q, d) == stored(
                mid,
                q,
                d,
            )) by {
                if stored(ns, q, d) {
                    let w = choose|w: int|
                        0 <= w < ns.len() && (#[trigger] ns[w]).0@ == q && ns[w].1@ == d;
                    assert(w < ns.len() - 1);
                    assert(mid[w].0@ == q && mid[w].1@ == d);
                }
                if stored(mid, q, d) {
                    let w = choose|w: int|
                        0 <= w < mid.len() && (#[trigger] mid[w]).0@ == q && mid[w].1@ == d;
                    assert(ns[w].0@ == q && ns[w].1@ == d);
                }
            }
            assert forall|q: Seq<char>| q != path@ implies (has_path(ns, q) == has_path(mid, q)) by {
                if has_path(ns, q) {
                    let w = choose|w: int| 0 <= w < ns.len() && (#[trigger] ns[w]).0@ == q;
                    assert(w < ns.len() - 1);
                    assert(mid[w].0@ == q);
                }
                if has_path(mid, q) {
                    let w = choose|w: int| 0 <= w < mid.len() && (#[trigger] mid[w]).0@ == q;
                    assert(ns[w].0@ == q);
                }
            }
            assert forall|d: Seq<u8>| stored(ns, path@, d) implies d == data@ by {
                let w = choose|w: int|
                    0 <= w < ns.len() && (#[trigger] ns[w]).0@ == path@ && ns[w].1@ == d;
                if w < ns.len() - 1 {
                    assert(stored(mid, path@, d));
                    assert(has_path(mid, path@));
                }
            }
        }
    }

    /// The exact byte sequence last committed under `path`, or nothing when
    /// no content exists there.
    pub fn read(&self, path: &str) -> (r: Option<Vec<u8>>)
        ensures
            match r {
                Some(d) => stored(self.entries@, path@, d@),
                None => !has_path(self.entries@, path@),
            },
    {
        match self.find_path(path) {
            Some(i) => {
                let mut out: Vec<u8> = Vec::new();
                out.extend_from_slice(self.entries[i].1.as_slice());
                proof {
                    assert(out@ =~= self.entries@[i as int].1@);
                }
                Some(out)
            },
            None => None,
        }
    }

    /// Remove a namespace and its whole subtree, as one step from the
    /// caller's point of view.
    pub fn delete_all(&mut self, ns_name: &str)
        requires
            old(self).wf(),
        ensures
            final(self).wf(),
            !has_ns(final(self).namespaces@, ns_name@),
            forall|q: Seq<char>|
                q != ns_name@ ==> (has_ns(final(self).namespaces@, q) == has_ns(
                    old(self).namespaces@,
                    q,
                )),
            forall|q: Seq<char>| under_ns(q, ns_name@) ==> !has_path(final(self).entries@, q),
            forall|q: Seq<char>, d: Seq<u8>|
                !under_ns(q, ns_name@) ==> (stored(final(self).entries@, q, d) == stored(
                    old(self).entries@,
                    q,
                    d,
                )),
            forall|q: Seq<char>|
                !under_ns(q, ns_name@) ==> (has_path(final(self).entries@, q) == has_path(
                    old(self).entries@,
                    q,
                )),
    {
        let n = self.namespaces.len();
        let mut i: usize = 0;
        let mut found: Option<usize> = None;
        while i < n
            invariant_except_break
                i <= n,
                n == self.namespaces@.len(),
                found is None,
                forall|j: int| 0 <= j < i ==> (#[trigger] self.namespaces@[j])@ != ns_name@,
            ensures
                match found {
                    Some(k) => k < self.namespaces@.len() && self.namespaces@[k as int]@
                        == ns_name@,
                    None => !has_ns(self.namespaces@, ns_name@),
                },
            decreases n - i,
        {
            if str_eq(self.namespaces[i].as_str(), ns_name) {
                found = Some(i);
                break ;
            }
            i = i + 1;
        }
        if let Some(i) = found {
            proof {
                self.namespaces@.remove_ensures(i as int);
            }
            self.namespaces.remove(i);
            proof {
                let os = old(self).namespaces@;
                let ns = self.namespaces@;
                assert forall|w: int| 0 <= w < ns.len() implies (#[trigger] ns[w])@ != ns_name@ by {
                    if w < i {
                        assert(ns[w] == os[w]);
                        assert(w != i);
                    } else {
                        assert(ns[w] == os[w + 1]);
                    }
                }
                assert forall|q: Seq<char>| q != ns_name@ implies (has_ns(ns, q) == has_ns(os, q))
                    by {
                    if has_ns(ns, q) {
                        let w = choose|w: int| 0 <= w < ns.len() && (#[trigger] ns[w])@ == q;
                        if w < i {
                            assert(os[w]@ == q);
                        } else {
                            assert(os[w + 1]@ == q);
                        }
                    }
                    if has_ns(os, q) {
                        let w = choose|w: int| 0 <= w < os.len() && (#[trigger] os[w])@ == q;
                        if w < i {
                            assert(ns[w]@ == q);
                        } else {
                            assert(ns[w - 1]@ == q);
                        }
                    }
                }
            }
        }

        let mut pref = String::from_str(ns_name);
        pref.append("/");
        proof {
            reveal_strlit("/");
            assert(pref@ =~= ns_name@ + seq!['/']);
        }
        let m = self.entries.len();
        let ghost es = self.entries@;
        let mut kept: Vec<(String, Vec<u8>)> = Vec::new();
        let mut j: usize = 0;
        while j < m
            invariant
                j <= m,
                m == es.len(),
                es == self.entries@,
                pref@ == ns_name@ + seq!['/'],
                forall|x: int, y: int|
                    0 <= x < y < es.len() ==> (#[trigger] es[x]).0@ != (#[trigger] es[y]).0@,
                forall|w: int| 0 <= w < kept@.len() ==> !under_ns((#[trigger] kept@[w]).0@, ns_name@),
                forall|q: Seq<char>, d: Seq<u8>|
                    stored(kept@, q, d) == (stored(es.subrange(0, j as int), q, d) && !under_ns(
                        q,
                        ns_name@,
                    )),
                forall|x: int, y: int|
                    0 <= x < y < kept@.len() ==> (#[trigger] kept@[x]).0@ != (
                    #[trigger] kept@[y]).0@,
            decreases m - j,
        {
            let ghost kept0 = kept@;
            let keep = !str_has_prefix(self.entries[j].0.as_str(), pref.as_str());
            if keep {
                let path_copy = self.entries[j].0.clone();
                let mut data_copy: Vec<u8> = Vec::new();
                data_copy.extend_from_slice(self.entries[j].1.as_slice());
                proof {
                    assert(data_copy@ =~= es[j as int].1@);
                }
                kept.push((path_copy, data_copy));
            }
            proof {
                assert forall|q: Seq<char>, d: Seq<u8>| stored(kept@, q, d) == (stored(
                    es.subrange(0, j as int + 1),
                    q,
                    d,
                ) && !under_ns(q, ns_name@)) by {
                    if stored(kept@, q, d) {
                        let w = choose|w: int|
                            0 <= w < kept@.len() && (#[trigger] kept@[w]).0@ == q && kept@[w].1@
                                == d;
                        if w < kept0.len() {
                            assert(stored(kept0, q, d));
                            let w2 = choose|w2: int|
                                0 <= w2 < j && (#[trigger] es.subrange(0, j as int)[w2]).0@ == q
                                    && es.subrange(0, j as int)[w2].1@ == d;
                            assert(es.subrange(0, j as int + 1)[w2].0@ == q);
                        } else {
                            assert(es.subrange(0, j as int + 1)[j as int].0@ == q);
                        }
                    }
                    if stored(es.subrange(0, j as int + 1), q, d) && !under_ns(q, ns_name@) {
                        let w = choose|w: int|
                            0 <= w <= j && (#[trigger] es.subrange(0, j as int + 1)[w]).0@ == q
                                && es.subrange(0, j as int + 1)[w].1@ == d;
                        if w < j {
                            assert(es.subrange(0, j as int)[w].0@ == q && es.subrange(
                                0,
                                j as int,
                            )[w].1@ == d);
                            assert(stored(kept0, q, d));
                            let w3 = choose|w3: int|
                                0 <= w3 < kept0.len() && (#[trigger] kept0[w3]).0@ == q
                                    && kept0[w3].1@ == d;
                            assert(kept@[w3].0@ == q && kept@[w3].1@ == d);
                        } else {
                            assert(es[j as int].0@ == q && es[j as int].1@ == d);
                            assert(kept@[kept@.len() - 1].0@ == q && kept@[kept@.len() - 1].1@
                                == d);
                        }
                    }
                }
                assert forall|x: int, y: int| 0 <= x < y < kept@.len() implies (
                #[trigger] kept@[x]).0@ != (#[trigger] kept@[y]).0@ by {
                    if y == kept@.len() - 1 && kept@.len() > kept0.len() {
                        if kept@[x].0@ == es[j as int].0@ {
                            assert(stored(kept0, kept@[x].0@, kept@[x].1@));
                            let w2 = choose|w2: int|
                                0 <= w2 < j && (#[trigger] es.subrange(0, j as int)[w2]).0@
                                    == kept@[x].0@ && es.subrange(0, j as int)[w2].1@
                                    == kept@[x].1@;
                            assert(es[w2].0@ == es[j as int].0@);
                        }
                    }
                }
            }
            j = j + 1;
        }
        proof {
            assert(es.subrange(0, m as int) =~= es);
        }
        self.entries = kept;
        proof {
            assert forall|q: Seq<char>|
                under_ns(q, ns_name@) implies !has_path(self.entries@, q) by {
                if has_path(self.entries@, q) {
                    let w = choose|w: int|
                        0 <= w < self.entries@.len() && (#[trigger] self.entries@[w]).0@ == q;
                }
            }
            assert forall|q: Seq<char>|
                !under_ns(q, ns_name@) implies (has_path(self.entries@, q) == has_path(es, q)) by {
                if has_path(self.entries@, q) {
                    let w = choose|w: int|
                        0 <= w < self.entries@.len() && (#[trigger] self.entries@[w]).0@ == q;
                    assert(stored(self.entries@, q, self.entries@[w].1@));
                    assert(stored(es, q, self.entries@[w].1@));
                }
                if has_path(es, q) {
                    let w = choose|w: int| 0 <= w < es.len() && (#[trigger] es[w]).0@ == q;
                    assert(stored(es, q, es[w].1@));
                    assert(stored(self.entries@, q, es[w].1@));
                }
            }
        }
    }

    /// The paths stored under a namespace's subtree.
    pub fn list_namespace_entries(&self, ns_name: &str) -> (r: Vec<String>)
        ensures
            forall|i: int|
                0 <= i < r@.len() ==> under_ns((#[trigger] r@[i])@, ns_name@) && has_path(
                    self.entries@,
                    r@[i]@,
                ),
            forall|q: Seq<char>|
                under_ns(q, ns_name@) && has_path(self.entries@, q) ==> (exists|i: int|
                    0 <= i < r@.len() && (#[trigger] r@[i])@ == q),
    {
        let mut pref = String::from_str(ns_name);
        pref.append("/");
        proof {
            reveal_strlit("/");
            assert(pref@ =~= ns_name@ + seq!['/']);
        }
        let m = self.entries.len();
        let mut out: Vec<String> = Vec::new();
        let mut j: usize = 0;
        while j < m
            invariant
                j <= m,
                m == self.entries@.len(),
                pref@ == ns_name@ + seq!['/'],
                forall|i: int|
                    0 <= i < out@.len() ==> under_ns((#[trigger] out@[i])@, ns_name@) && has_path(
                        self.entries@,
                        out@[i]@,
                    ),
                forall|w: int|
                    0 <= w < j && under_ns((#[trigger] self.entries@[w]).0@, ns_name@) ==> (exists|
                        i: int,
                    |
                        0 <= i < out@.len() && (#[trigger] out@[i])@ == self.entries@[w].0@),
            decreases m - j,
        {
            let ghost out0 = out@;
            if str_has_prefix(self.entries[j].0.as_str(), pref.as_str()) {
                out.push(self.entries[j].0.clone());
                proof {
                    assert(out@[out@.len() - 1]@ == self.entries@[j as int].0@);
                    assert(stored(
                        self.entries@,
                        self.entries@[j as int].0@,
                        self.entries@[j as int].1@,
                    ));
                    assert forall|w: int|
                        0 <= w < j + 1 && under_ns(
                            (#[trigger] self.entries@[w]).0@,
                            ns_name@,
                        ) implies (exists|i: int|
                        0 <= i < out@.len() && (#[trigger] out@[i])@ == self.entries@[w].0@) by {
                        if w < j {
                            let i0 = choose|i0: int|
                                0 <= i0 < out0.len() && (#[trigger] out0[i0])@
                                    == self.entries@[w].0@;
                            assert(out@[i0]@ == self.entries@[w].0@);
                        } else {
                            assert(out@[out@.len() - 1]@ == self.entries@[w].0@);
                        }
                    }
                }
            }
            j = j + 1;
        }
        proof {
            assert forall|q: Seq<char>|
                under_ns(q, ns_name@) && has_path(self.entries@, q) implies (exists|i: int|
                0 <= i < out@.len() && (#[trigger] out@[i])@ == q) by {
                let w = choose|w: int|
                    0 <= w < self.entries@.len() && (#[trigger] self.entries@[w]).0@ == q;
            }
        }
        out
    }
}

} // verus!
