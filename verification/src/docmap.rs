//! The mapping from section headers to content lines, and the two
//! operations that build the final document from such mappings: merging
//! the per-file mappings and ordering the merged sections.

use vstd::prelude::*;
use crate::scan::str_eq;

verus! {

/// The model of a `DocMap`: its entries in insertion order, each a header
/// together with the section's content lines.
pub type DocModel = Seq<(Seq<char>, Seq<Seq<char>>)>;

/// The headers of `m` are pairwise distinct.
pub open spec fn entries_wf(m: DocModel) -> bool {
    forall|i: int, j: int| 0 <= i < j < m.len() ==> m[i].0 != m[j].0
}

/// Some entry of `m` has the header `k`.
pub open spec fn has_key(m: DocModel, k: Seq<char>) -> bool {
    exists|i: int| 0 <= i < m.len() && m[i].0 == k
}

/// The position of the entry of `m` with header `k`.
pub open spec fn key_index(m: DocModel, k: Seq<char>) -> int {
    choose|i: int| 0 <= i < m.len() && m[i].0 == k
}

/// `key_index` names an entry with the sought header whenever one exists.
pub proof fn lemma_key_index(m: DocModel, k: Seq<char>)
    requires
        has_key(m, k),
    ensures
        0 <= key_index(m, k) < m.len(),
        m[key_index(m, k)].0 == k,
{
    let i = choose|i: int| 0 <= i < m.len() && m[i].0 == k;
    assert(0 <= i < m.len() && m[i].0 == k);
}

/// With distinct headers, an entry's position determines `key_index`.
pub proof fn lemma_key_at(m: DocModel, k: Seq<char>, i: int)
    requires
        entries_wf(m),
        0 <= i < m.len(),
        m[i].0 == k,
    ensures
        has_key(m, k),
        key_index(m, k) == i,
{
    assert(has_key(m, k));
    lemma_key_index(m, k);
    let c = key_index(m, k);
    if c < i {
        assert(m[c].0 != m[i].0);
    } else if i < c {
        assert(m[i].0 != m[c].0);
    }
}

/// `m` with the lines `v` recorded for header `k`: appended after the
/// lines an existing entry already holds, keeping its position, or as a
/// new entry at the end.
pub open spec fn upsert_append(m: DocModel, k: Seq<char>, v: Seq<Seq<char>>) -> DocModel {
    if has_key(m, k) {
        let i = key_index(m, k);
        m.update(i, (k, m[i].1 + v))
    } else {
        m.push((k, v))
    }
}

/// As `upsert_append`, except that the new lines come before the lines an
/// existing entry already holds.
pub open spec fn upsert_prepend(m: DocModel, k: Seq<char>, v: Seq<Seq<char>>) -> DocModel {
    if has_key(m, k) {
        let i = key_index(m, k);
        m.update(i, (k, v + m[i].1))
    } else {
        m.push((k, v))
    }
}

/// Recording lines never duplicates a header.
pub proof fn lemma_upsert_wf(m: DocModel, k: Seq<char>, v: Seq<Seq<char>>)
    requires
        entries_wf(m),
    ensures
        entries_wf(upsert_append(m, k, v)),
        entries_wf(upsert_prepend(m, k, v)),
{
    if has_key(m, k) {
        lemma_key_index(m, k);
        let i = key_index(m, k);
        let ma = upsert_append(m, k, v);
        let mp = upsert_prepend(m, k, v);
        assert forall|a: int, b: int| 0 <= a < b < ma.len() implies ma[a].0 != ma[b].0 by {
            assert(ma[a].0 == m[a].0 && ma[b].0 == m[b].0);
        }
        assert forall|a: int, b: int| 0 <= a < b < mp.len() implies mp[a].0 != mp[b].0 by {
            assert(mp[a].0 == m[a].0 && mp[b].0 == m[b].0);
        }
    } else {
        let ma = upsert_append(m, k, v);
        assert forall|a: int, b: int| 0 <= a < b < ma.len() implies ma[a].0 != ma[b].0 by {
            if b == m.len() {
                if m[a].0 == k {
                    assert(has_key(m, k));
                }
            } else {
                assert(ma[a].0 == m[a].0 && ma[b].0 == m[b].0);
            }
        }
        assert(upsert_prepend(m, k, v) == ma);
    }
}

/// A mapping from section header to the section's content lines.  Entries
/// keep the order in which their headers were first inserted, and each
/// header occurs at most once.
#[derive(Debug, PartialEq, Eq)]
pub struct DocMap {
    entries: Vec<(String, Vec<String>)>,
}

impl View for DocMap {
    type V = DocModel;

    closed spec fn view(&self) -> DocModel {
        Seq::new(
            self.entries@.len(),
            |i: int| (self.entries@[i].0@, self.entries@[i].1.deep_view()),
        )
    }
}

impl DocMap {
    /// The headers of the map are pairwise distinct.
    pub open spec fn wf(&self) -> bool {
        entries_wf(self@)
    }

    /// Creates an empty map.
    pub fn new() -> (r: DocMap)
        ensures
            r.wf(),
            r@ == Seq::<(Seq<char>, Seq<Seq<char>>)>::empty(),
    {
        let r = DocMap { entries: Vec::new() };
        proof {
            assert(r@ =~= Seq::<(Seq<char>, Seq<Seq<char>>)>::empty());
        }
        r
    }

    /// The number of sections held.
    pub fn len(&self) -> (n: usize)
        ensures
            n == self@.len(),
    {
        self.entries.len()
    }

    /// The position of the entry with header `key`, if one exists.
    fn find_index(&self, key: &str) -> (r: Option<usize>)
        requires
            self.wf(),
        ensures
            match r {
                Some(i) => has_key(self@, key@) && 0 <= i < self@.len() && self@[i as int].0
                    == key@ && key_index(self@, key@) == i as int,
                None => !has_key(self@, key@),
            },
    {
        let n = self.entries.len();
        let mut i: usize = 0;
        while i < n
            invariant
                self.wf(),
                n == self@.len(),
                n == self.entries@.len(),
                0 <= i <= n,
                forall|j: int| 0 <= j < i ==> self@[j].0 != key@,
            decreases n - i,
        {
            let e = &self.entries[i];
            if str_eq(e.0.as_str(), key) {
                proof {
                    lemma_key_at(self@, key@, i as int);
                }
                return Some(i);
            }
            i += 1;
        }
        proof {
            if has_key(self@, key@) {
                lemma_key_index(self@, key@);
            }
        }
        None
    }

    /// The content lines stored for `key`, if the header is present.
    pub fn get(&self, key: &str) -> (r: Option<&Vec<String>>)
        requires
            self.wf(),
        ensures
            match r {
                Some(v) => has_key(self@, key@) && v.deep_view() == self@[key_index(
                    self@,
                    key@,
                )].1,
                None => !has_key(self@, key@),
            },
    {
        match self.find_index(key) {
            Some(i) => Some(&self.entries[i].1),
            None => None,
        }
    }

    /// The entry at position `i`: its header and its content lines.
    pub fn entry_at(&self, i: usize) -> (r: (&String, &Vec<String>))
        requires
            i < self@.len(),
        ensures
            r.0@ == self@[i as int].0,
            r.1.deep_view() == self@[i as int].1,
    {
        let e = &self.entries[i];
        (&e.0, &e.1)
    }

    /// Removes and returns the entry at position `i`.
    fn remove_at(&mut self, i: usize) -> (e: (String, Vec<String>))
        requires
            old(self).wf(),
            i < old(self)@.len(),
        ensures
            final(self).wf(),
            final(self)@ == old(self)@.remove(i as int),
            e.0@ == old(self)@[i as int].0,
            e.1.deep_view() == old(self)@[i as int].1,
    {
        let ghost m0 = self@;
        let e = self.entries.remove(i);
        proof {
            assert(self@ =~= m0.remove(i as int));
            m0.remove_ensures(i as int);
            assert forall|a: int, b: int|
                0 <= a < b < self@.len() implies self@[a].0 != self@[b].0 by {
                if b < i {
                    assert(self@[a] == m0[a] && self@[b] == m0[b]);
                } else if a < i {
                    assert(self@[a] == m0[a] && self@[b] == m0[b + 1]);
                } else {
                    assert(self@[a] == m0[a + 1] && self@[b] == m0[b + 1]);
                }
            }
        }
        e
    }

    /// Records `lines` for `header`: appended after any lines the header
    /// already holds, or as a new entry at the end of the map.
    pub fn append_lines(&mut self, header: String, lines: Vec<String>)
        requires
            old(self).wf(),
        ensures
            final(self).wf(),
            final(self)@ == upsert_append(old(self)@, header@, lines.deep_view()),
    {
        let ghost m0 = self@;
        let ghost ldv = lines.deep_view();
        proof {
            lemma_upsert_wf(m0, header@, ldv);
        }
        match self.find_index(header.as_str()) {
            None => {
                self.entries.push((header, lines));
                proof {
                    assert(self@ =~= m0.push((header@, ldv)));
                }
            },
            Some(i) => {
                let ghost entries0 = self.entries@;
                let mut entry = self.entries.remove(i);
                let mut new_lines = lines;
                entry.1.append(&mut new_lines);
                proof {
                    assert(entry.1.deep_view() =~= m0[i as int].1 + ldv);
                }
                let ghost entry_v = entry;
                self.entries.insert(i, entry);
                proof {
                    entries0.remove_ensures(i as int);
                    entries0.remove(i as int).insert_ensures(i as int, entry_v);
                    assert(self@ =~= m0.update(i as int, (header@, m0[i as int].1 + ldv)));
                }
            },
        }
    }

    /// Records `lines` for `header`: before any lines the header already
    /// holds, or as a new entry at the end of the map.
    pub fn prepend_lines(&mut self, header: String, lines: Vec<String>)
        requires
            old(self).wf(),
        ensures
            final(self).wf(),
            final(self)@ == upsert_prepend(old(self)@, header@, lines.deep_view()),
    {
        let ghost m0 = self@;
        let ghost ldv = lines.deep_view();
        proof {
            lemma_upsert_wf(m0, header@, ldv);
        }
        match self.find_index(header.as_str()) {
            None => {
                self.entries.push((header, lines));
                proof {
                    assert(self@ =~= m0.push((header@, ldv)));
                }
            },
            Some(i) => {
                let ghost entries0 = self.entries@;
                let mut entry = self.entries.remove(i);
                let mut new_lines = lines;
                new_lines.append(&mut entry.1);
                entry.1 = new_lines;
                proof {
                    assert(entry.1.deep_view() =~= ldv + m0[i as int].1);
                }
                let ghost entry_v = entry;
                self.entries.insert(i, entry);
                proof {
                    entries0.remove_ensures(i as int);
                    entries0.remove(i as int).insert_ensures(i as int, entry_v);
                    assert(self@ =~= m0.update(i as int, (header@, ldv + m0[i as int].1)));
                }
            },
        }
    }
}

/// Clones a section's content lines.
fn clone_lines(v: &Vec<String>) -> (r: Vec<String>)
    ensures
        r.deep_view() == v.deep_view(),
{
    let mut r: Vec<String> = Vec::new();
    let n = v.len();
    let mut i: usize = 0;
    proof {
        assert(r.deep_view() =~= v.deep_view().take(0));
    }
    while i < n
        invariant
            n == v@.len(),
            0 <= i <= n,
            r.deep_view() == v.deep_view().take(i as int),
        decreases n - i,
    {
        let ghost pre = r.deep_view();
        r.push(v[i].clone());
        proof {
            assert(r.deep_view() =~= pre.push(v.deep_view()[i as int]));
            assert(pre.push(v.deep_view()[i as int]) =~= v.deep_view().take(i + 1));
        }
        i += 1;
    }
    proof {
        assert(v.deep_view().take(n as int) =~= v.deep_view());
    }
    r
}

/// Folds one mapping into an accumulator: each entry of the mapping, in
/// order, has its lines recorded under its header, the new lines coming
/// before any lines the accumulator already holds for that header.
pub open spec fn merge_one(acc: DocModel, m: DocModel) -> DocModel
    decreases m.len(),
{
    if m.len() == 0 {
        acc
    } else {
        merge_one(upsert_prepend(acc, m[0].0, m[0].1), m.drop_first())
    }
}

/// Folds a sequence of mappings into an accumulator, in order.
pub open spec fn merge_into(acc: DocModel, ms: Seq<DocModel>) -> DocModel
    decreases ms.len(),
{
    if ms.len() == 0 {
        acc
    } else {
        merge_into(merge_one(acc, ms[0]), ms.drop_first())
    }
}

/// The merge of a sequence of mappings, starting from the empty mapping.
pub open spec fn merge_spec(ms: Seq<DocModel>) -> DocModel {
    merge_into(Seq::<(Seq<char>, Seq<Seq<char>>)>::empty(), ms)
}

/// The models of a sequence of maps.
pub open spec fn views_of(ms: Seq<DocMap>) -> Seq<DocModel> {
    ms.map_values(|dm: DocMap| dm@)
}

/// Combines the per-file mappings into one mapping, in the order the
/// files were processed.  When the same header occurs in several
/// mappings, a later mapping's lines come before the lines accumulated so
/// far for that header.
pub fn merge_maps(maps: &Vec<DocMap>) -> (r: DocMap)
    requires
        forall|q: int| 0 <= q < maps@.len() ==> (#[trigger] maps@[q]).wf(),
    ensures
        r.wf(),
        r@ == merge_spec(views_of(maps@)),
{
    let mut acc = DocMap::new();
    let n = maps.len();
    let mut mi: usize = 0;
    let ghost views = views_of(maps@);
    proof {
        assert(views.skip(0) =~= views);
    }
    while mi < n
        invariant
            acc.wf(),
            n == maps@.len(),
            0 <= mi <= n,
            views == views_of(maps@),
            forall|q: int| 0 <= q < maps@.len() ==> (#[trigger] maps@[q]).wf(),
            merge_into(acc@, views.skip(mi as int)) == merge_spec(views),
        decreases n - mi,
    {
        let m = &maps[mi];
        let ghost acc0 = acc@;
        let mlen = m.len();
        let mut ei: usize = 0;
        proof {
            assert(m@.skip(0) =~= m@);
        }
        while ei < mlen
            invariant
                acc.wf(),
                mlen == m@.len(),
                0 <= ei <= mlen,
                merge_one(acc@, m@.skip(ei as int)) == merge_one(acc0, m@),
            decreases mlen - ei,
        {
            let (k, v) = m.entry_at(ei);
            let key = k.clone();
            let lines = clone_lines(v);
            let ghost acc_pre = acc@;
            acc.prepend_lines(key, lines);
            proof {
                assert(m@.skip(ei as int)[0] == m@[ei as int]);
                assert(m@.skip(ei as int).drop_first() =~= m@.skip(ei as int + 1));
                assert(merge_one(acc_pre, m@.skip(ei as int)) == merge_one(
                    upsert_prepend(acc_pre, m@[ei as int].0, m@[ei as int].1),
                    m@.skip(ei as int + 1),
                ));
                assert(acc@ == upsert_prepend(acc_pre, m@[ei as int].0, m@[ei as int].1));
            }
            ei += 1;
        }
        proof {
            assert(m@.skip(mlen as int) =~= Seq::<(Seq<char>, Seq<Seq<char>>)>::empty());
            assert(merge_one(acc@, m@.skip(mlen as int)) == acc@);
            assert(views.skip(mi as int)[0] == views[mi as int]);
            assert(views[mi as int] == m@);
            assert(views.skip(mi as int).drop_first() =~= views.skip(mi as int + 1));
            assert(merge_into(acc0, views.skip(mi as int)) == merge_into(
                merge_one(acc0, m@),
                views.skip(mi as int + 1),
            ));
        }
        mi += 1;
    }
    proof {
        assert(views.skip(n as int) =~= Seq::<DocModel>::empty());
        assert(merge_into(acc@, views.skip(n as int)) == acc@);
    }
    acc
}

/// The flat document of a mapping: each header followed by its content
/// lines, in entry order.
pub open spec fn flatten_entries(m: DocModel) -> Seq<Seq<char>>
    decreases m.len(),
{
    if m.len() == 0 {
        Seq::empty()
    } else {
        seq![m[0].0] + m[0].1 + flatten_entries(m.drop_first())
    }
}

/// The ordered document: first the sections named by `idx`, in index
/// order, each header followed by its lines, headers absent from the
/// mapping skipped; then every remaining section, in entry order.
pub open spec fn order_spec(m: DocModel, idx: Seq<Seq<char>>) -> Seq<Seq<char>>
    decreases idx.len(),
{
    if idx.len() == 0 {
        flatten_entries(m)
    } else if has_key(m, idx[0]) {
        let i = key_index(m, idx[0]);
        seq![m[i].0] + m[i].1 + order_spec(m.remove(i), idx.drop_first())
    } else {
        order_spec(m, idx.drop_first())
    }
}

/// Ordering a single-section mapping with an empty index yields exactly
/// the header followed by its content lines; the result is a function of
/// the mapping alone, so repeated calls agree.
pub proof fn lemma_order_single_entry(m: DocModel)
    requires
        m.len() == 1,
    ensures
        order_spec(m, Seq::<Seq<char>>::empty()) == seq![m[0].0] + m[0].1,
{
    assert(m.drop_first() =~= Seq::<(Seq<char>, Seq<Seq<char>>)>::empty());
    assert(flatten_entries(m.drop_first()) == Seq::<Seq<char>>::empty());
    assert(seq![m[0].0] + m[0].1 + Seq::<Seq<char>>::empty() =~= seq![m[0].0] + m[0].1);
}

/// Flattens the mapping into the final document: the sections named by
/// `index` first, in that order, then the remaining sections in the order
/// their headers were first inserted.
pub fn order_comments(comments: DocMap, index: Vec<String>) -> (r: Vec<String>)
    requires
        comments.wf(),
    ensures
        r.deep_view() == order_spec(comments@, index.deep_view()),
{
    let ghost target = order_spec(comments@, index.deep_view());
    let ghost idx_dv = index.deep_view();
    let mut map = comments;
    let mut output: Vec<String> = Vec::new();
    let idx_len = index.len();
    let mut ii: usize = 0;
    proof {
        assert(idx_dv.skip(0) =~= idx_dv);
        assert(output.deep_view() + order_spec(map@, idx_dv) =~= order_spec(map@, idx_dv));
    }
    while ii < idx_len
        invariant
            map.wf(),
            idx_len == index@.len(),
            idx_dv == index.deep_view(),
            0 <= ii <= idx_len,
            output.deep_view() + order_spec(map@, idx_dv.skip(ii as int)) == target,
        decreases idx_len - ii,
    {
        let ghost m_pre = map@;
        let ghost out_pre = output.deep_view();
        let key = &index[ii];
        proof {
            assert(key@ == idx_dv[ii as int]);
            assert(idx_dv.skip(ii as int)[0] == idx_dv[ii as int]);
            assert(idx_dv.skip(ii as int).drop_first() =~= idx_dv.skip(ii as int + 1));
        }
        match map.find_index(key.as_str()) {
            Some(pos) => {
                output.push(key.clone());
                let entry = map.remove_at(pos);
                let lines = entry.1;
                proof {
                    assert(output.deep_view() =~= out_pre + seq![idx_dv[ii as int]]
                        + lines.deep_view().take(0));
                }
                let llen = lines.len();
                let mut li: usize = 0;
                while li < llen
                    invariant
                        llen == lines@.len(),
                        0 <= li <= llen,
                        output.deep_view() == out_pre + seq![idx_dv[ii as int]]
                            + lines.deep_view().take(li as int),
                    decreases llen - li,
                {
                    let ghost pre = output.deep_view();
                    output.push(lines[li].clone());
                    proof {
                        assert(output.deep_view() =~= pre.push(lines.deep_view()[li as int]));
                        assert(pre.push(lines.deep_view()[li as int]) =~= out_pre + seq![
                            idx_dv[ii as int],
                        ] + lines.deep_view().take(li + 1));
                    }
                    li += 1;
                }
                proof {
                    assert(lines.deep_view().take(llen as int) =~= lines.deep_view());
                    assert(order_spec(m_pre, idx_dv.skip(ii as int)) == seq![m_pre[pos as int].0]
                        + m_pre[pos as int].1 + order_spec(
                        m_pre.remove(pos as int),
                        idx_dv.skip(ii as int + 1),
                    ));
                    assert(output.deep_view() + order_spec(map@, idx_dv.skip(ii as int + 1)) =~=
                        out_pre + order_spec(m_pre, idx_dv.skip(ii as int)));
                }
            },
            None => {
                proof {
                    assert(order_spec(m_pre, idx_dv.skip(ii as int)) == order_spec(
                        m_pre,
                        idx_dv.skip(ii as int + 1),
                    ));
                }
            },
        }
        ii += 1;
    }
    proof {
        assert(idx_dv.skip(idx_len as int) =~= Seq::<Seq<char>>::empty());
        assert(order_spec(map@, idx_dv.skip(idx_len as int)) == flatten_entries(map@));
        assert(map@.skip(0) =~= map@);
    }
    let mlen = map.len();
    let mut ei: usize = 0;
    while ei < mlen
        invariant
            mlen == map@.len(),
            0 <= ei <= mlen,
            output.deep_view() + flatten_entries(map@.skip(ei as int)) == target,
        decreases mlen - ei,
    {
        let (k, v) = map.entry_at(ei);
        let key = k.clone();
        let ghost out_pre = output.deep_view();
        output.push(key);
        proof {
            assert(output.deep_view() =~= out_pre + seq![map@[ei as int].0]
                + v.deep_view().take(0));
        }
        let llen = v.len();
        let mut li: usize = 0;
        while li < llen
            invariant
                ei < map@.len(),
                llen == v@.len(),
                v.deep_view() == map@[ei as int].1,
                0 <= li <= llen,
                output.deep_view() == out_pre + seq![map@[ei as int].0] + v.deep_view().take(
                    li as int,
                ),
            decreases llen - li,
        {
            let ghost pre = output.deep_view();
            output.push(v[li].clone());
            proof {
                assert(output.deep_view() =~= pre.push(v.deep_view()[li as int]));
                assert(pre.push(v.deep_view()[li as int]) =~= out_pre + seq![map@[ei as int].0]
                    + v.deep_view().take(li + 1));
            }
            li += 1;
        }
        proof {
            assert(v.deep_view().take(llen as int) =~= v.deep_view());
            assert(map@.skip(ei as int)[0] == map@[ei as int]);
            assert(map@.skip(ei as int).drop_first() =~= map@.skip(ei as int + 1));
            assert(flatten_entries(map@.skip(ei as int)) == seq![map@[ei as int].0]
                + map@[ei as int].1 + flatten_entries(map@.skip(ei as int + 1)));
            assert(output.deep_view() + flatten_entries(map@.skip(ei as int + 1)) =~= out_pre
                + flatten_entries(map@.skip(ei as int)));
        }
        ei += 1;
    }
    proof {
        assert(map@.skip(mlen as int) =~= Seq::<(Seq<char>, Seq<Seq<char>>)>::empty());
        assert(flatten_entries(map@.skip(mlen as int)) == Seq::<Seq<char>>::empty());
        assert(output.deep_view() + Seq::<Seq<char>>::empty() =~= output.deep_view());
    }
    output
}

} // verus!
