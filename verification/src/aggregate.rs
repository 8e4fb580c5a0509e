use crate::version::{
    lemma_version_cmp_flip, lemma_version_le_antisym, lemma_version_le_refl,
    lemma_version_le_trans, version_le, Cmp, Version, VersionView,
};
use vstd::prelude::*;

verus! {

/// The aggregation key: the (major, minor) line a version belongs to.
#[derive(Clone, Copy, Debug, PartialEq, Eq, Structural)]
pub struct MajorMinorKey {
    pub major: u64,
    pub minor: u64,
}

/// Strict lexicographic order on keys: major first, then minor.
pub open spec fn key_lt(a: MajorMinorKey, b: MajorMinorKey) -> bool {
    a.major < b.major || (a.major == b.major && a.minor < b.minor)
}

/// The key names exactly the version's (major, minor) pair.
pub open spec fn key_matches(k: MajorMinorKey, v: VersionView) -> bool {
    k.major == v.major && k.minor == v.minor
}

/// The version's numeric fields fit the machine integers they came from.
pub open spec fn in_range(v: VersionView) -> bool {
    0 <= v.major <= u64::MAX && 0 <= v.minor <= u64::MAX
}

/// The key a version aggregates under.
pub open spec fn view_key(v: VersionView) -> MajorMinorKey {
    MajorMinorKey { major: v.major as u64, minor: v.minor as u64 }
}

/// Some entry of `s` carries the key `k`.
pub open spec fn has_key(s: Seq<(MajorMinorKey, VersionView)>, k: MajorMinorKey) -> bool {
    exists|j: int| 0 <= j < s.len() && (#[trigger] s[j]).0 == k
}

/// Well-formed entry list: keys strictly ascending (so each key appears once)
/// and every stored version lies on the line its key names.
pub open spec fn wf_seq(s: Seq<(MajorMinorKey, VersionView)>) -> bool {
    (forall|i: int, j: int| 0 <= i < j < s.len() ==> key_lt(#[trigger] s[i].0, #[trigger] s[j].0))
        && (forall|i: int| 0 <= i < s.len() ==> key_matches((#[trigger] s[i]).0, s[i].1))
}

/// Insertion into a sorted entry list: a new key takes its ordered place; an
/// existing key keeps the greater of the stored and the new version.
pub open spec fn spec_insert(
    s: Seq<(MajorMinorKey, VersionView)>,
    k: MajorMinorKey,
    v: VersionView,
) -> Seq<(MajorMinorKey, VersionView)>
    decreases s.len(),
{
    if s.len() == 0 {
        seq![(k, v)]
    } else if key_lt(k, s[0].0) {
        seq![(k, v)] + s
    } else if k == s[0].0 {
        if version_le(v, s[0].1) {
            s
        } else {
            s.update(0, (k, v))
        }
    } else {
        seq![s[0]] + spec_insert(s.drop_first(), k, v)
    }
}

/// The aggregate of a whole insertion sequence, one version at a time.
pub open spec fn aggregate(vs: Seq<VersionView>) -> Seq<(MajorMinorKey, VersionView)>
    decreases vs.len(),
{
    if vs.len() == 0 {
        Seq::<(MajorMinorKey, VersionView)>::empty()
    } else {
        spec_insert(aggregate(vs.drop_last()), view_key(vs.last()), vs.last())
    }
}

/// What one insertion does to a well-formed entry list: the list stays
/// well-formed, gains the key, keeps every other entry, and the entry at the
/// key dominates both the new version and whatever the key held before.
proof fn lemma_spec_insert(s: Seq<(MajorMinorKey, VersionView)>, k: MajorMinorKey, v: VersionView)
    requires
        wf_seq(s),
        key_matches(k, v),
    ensures
        wf_seq(spec_insert(s, k, v)),
        has_key(spec_insert(s, k, v), k),
        forall|j: int| 0 <= j < s.len() ==> has_key(spec_insert(s, k, v), (#[trigger] s[j]).0),
        forall|j: int|
            0 <= j < spec_insert(s, k, v).len() ==> s.contains(#[trigger] spec_insert(s, k, v)[j])
                || spec_insert(s, k, v)[j] == (k, v),
        forall|j: int|
            0 <= j < s.len() && (#[trigger] s[j]).0 != k ==> spec_insert(s, k, v).contains(s[j]),
        forall|j: int|
            0 <= j < spec_insert(s, k, v).len() && (#[trigger] spec_insert(s, k, v)[j]).0 == k
                ==> version_le(v, spec_insert(s, k, v)[j].1),
        forall|j: int, j2: int|
            0 <= j < spec_insert(s, k, v).len() && 0 <= j2 < s.len() && (#[trigger] spec_insert(
                s,
                k,
                v,
            )[j]).0 == (#[trigger] s[j2]).0 ==> version_le(s[j2].1, spec_insert(s, k, v)[j].1),
    decreases s.len(),
{
    let t = spec_insert(s, k, v);
    lemma_version_le_refl(v);
    assert forall|j: int| 0 <= j < s.len() implies version_le((#[trigger] s[j]).1, s[j].1) by {
        lemma_version_le_refl(s[j].1);
    }
    if s.len() == 0 {
        assert(t[0] == (k, v));
    } else if key_lt(k, s[0].0) {
        assert(t[0] == (k, v));
        assert(forall|j: int| 0 <= j < s.len() ==> #[trigger] t[j + 1] == s[j]);
        assert forall|j: int| 0 <= j < s.len() implies has_key(t, (#[trigger] s[j]).0) by {
            assert(t[j + 1] == s[j]);
        }
        assert forall|j: int| 0 <= j < s.len() && (#[trigger] s[j]).0 != k implies t.contains(
            s[j],
        ) by {
            assert(t[j + 1] == s[j]);
        }
        assert forall|j: int|
            0 <= j < t.len() && (#[trigger] t[j]).0 == k implies version_le(v, t[j].1) by {
            if j > 0 {
                assert(t[j] == s[j - 1]);
                if j - 1 > 0 {
                    assert(key_lt(s[0].0, s[j - 1].0));
                }
                assert(false);
            }
        }
        assert forall|j: int, j2: int|
            0 <= j < t.len() && 0 <= j2 < s.len() && (#[trigger] t[j]).0 == (#[trigger] s[j2]).0
            implies version_le(s[j2].1, t[j].1) by {
            if j == 0 {
                if j2 > 0 {
                    assert(key_lt(s[0].0, s[j2].0));
                }
                assert(false);
            } else {
                assert(t[j] == s[j - 1]);
                if j - 1 < j2 {
                    assert(key_lt(s[j - 1].0, s[j2].0));
                } else if j2 < j - 1 {
                    assert(key_lt(s[j2].0, s[j - 1].0));
                }
                assert(j - 1 == j2);
            }
        }
    } else if k == s[0].0 {
        if version_le(v, s[0].1) {
            assert(t == s);
            assert(t[0].0 == k);
            assert forall|j: int| 0 <= j < s.len() implies has_key(t, (#[trigger] s[j]).0) by {
                assert(t[j] == s[j]);
            }
            assert forall|j: int| 0 <= j < t.len() implies s.contains(#[trigger] t[j]) by {
                assert(s[j] == t[j]);
            }
            assert forall|j: int|
                0 <= j < t.len() && (#[trigger] t[j]).0 == k implies version_le(v, t[j].1) by {
                if j > 0 {
                    assert(key_lt(s[0].0, s[j].0));
                    assert(false);
                }
            }
            assert forall|j: int, j2: int|
                0 <= j < t.len() && 0 <= j2 < s.len() && (#[trigger] t[j]).0 == (#[trigger] s[j2]).0
                implies version_le(s[j2].1, t[j].1) by {
                if j < j2 {
                    assert(key_lt(s[j].0, s[j2].0));
                } else if j2 < j {
                    assert(key_lt(s[j2].0, s[j].0));
                }
                assert(j == j2);
                lemma_version_le_refl(s[j].1);
            }
        } else {
            lemma_version_cmp_flip(v, s[0].1);
            assert(version_le(s[0].1, v));
            assert(t == s.update(0, (k, v)));
            assert(t[0] == (k, v));
            assert(forall|j: int| 1 <= j < s.len() ==> #[trigger] t[j] == s[j]);
            assert forall|j: int| 0 <= j < s.len() implies has_key(t, (#[trigger] s[j]).0) by {
                if j == 0 {
                    assert(t[0].0 == s[0].0);
                } else {
                    assert(t[j] == s[j]);
                }
            }
            assert forall|j: int| 0 <= j < s.len() && (#[trigger] s[j]).0 != k implies t.contains(
                s[j],
            ) by {
                assert(j != 0);
                assert(t[j] == s[j]);
            }
            assert forall|j: int|
                0 <= j < t.len() && (#[trigger] t[j]).0 == k implies version_le(v, t[j].1) by {
                if j > 0 {
                    assert(t[j] == s[j]);
                    assert(key_lt(s[0].0, s[j].0));
                    assert(false);
                }
            }
            assert forall|j: int, j2: int|
                0 <= j < t.len() && 0 <= j2 < s.len() && (#[trigger] t[j]).0 == (#[trigger] s[j2]).0
                implies version_le(s[j2].1, t[j].1) by {
                if j > 0 {
                    assert(t[j] == s[j]);
                }
                if j < j2 {
                    assert(key_lt(s[j].0, s[j2].0));
                } else if j2 < j {
                    assert(key_lt(s[j2].0, s[j].0));
                }
                assert(j == j2);
                if j > 0 {
                    lemma_version_le_refl(s[j].1);
                }
            }
        }
    } else {
        assert(key_lt(s[0].0, k));
        let d = s.drop_first();
        assert forall|i: int, j: int| 0 <= i < j < d.len() implies key_lt(
            (#[trigger] d[i]).0,
            (#[trigger] d[j]).0,
        ) by {
            assert(d[i] == s[i + 1]);
            assert(d[j] == s[j + 1]);
        }
        assert forall|i: int| 0 <= i < d.len() implies key_matches((#[trigger] d[i]).0, d[i].1) by {
            assert(d[i] == s[i + 1]);
        }
        lemma_spec_insert(d, k, v);
        let t2 = spec_insert(d, k, v);
        assert(t == seq![s[0]] + t2);
        assert(t[0] == s[0]);
        assert(forall|j: int| 0 <= j < t2.len() ==> #[trigger] t[j + 1] == t2[j]);
        // every entry of the tail result carries a key above s[0]'s
        assert forall|j: int| 0 <= j < t2.len() implies key_lt(s[0].0, (#[trigger] t2[j]).0) by {
            if t2[j] == (k, v) {
            } else {
                assert(d.contains(t2[j]));
                let w = choose|w: int| 0 <= w < d.len() && d[w] == t2[j];
                assert(d[w] == s[w + 1]);
                if w + 1 > 0 {
                    assert(key_lt(s[0].0, s[w + 1].0));
                }
            }
        }
        assert forall|i: int, j: int| 0 <= i < j < t.len() implies key_lt(
            (#[trigger] t[i]).0,
            (#[trigger] t[j]).0,
        ) by {
            if i > 0 {
                assert(t[i] == t2[i - 1]);
                assert(t[j] == t2[j - 1]);
            } else {
                assert(t[j] == t2[j - 1]);
                assert(key_lt(s[0].0, t2[j - 1].0));
            }
        }
        assert forall|i: int| 0 <= i < t.len() implies key_matches((#[trigger] t[i]).0, t[i].1) by {
            if i > 0 {
                assert(t[i] == t2[i - 1]);
            }
        }
        assert(wf_seq(t));
        let hk = choose|j: int| 0 <= j < t2.len() && (#[trigger] t2[j]).0 == k;
        assert(t[hk + 1] == t2[hk]);
        assert(has_key(t, k));
        assert forall|j: int| 0 <= j < s.len() implies has_key(t, (#[trigger] s[j]).0) by {
            if j == 0 {
                assert(t[0] == s[0]);
            } else {
                assert(d[j - 1] == s[j]);
                assert(has_key(t2, d[j - 1].0));
                let w = choose|w: int| 0 <= w < t2.len() && (#[trigger] t2[w]).0 == d[j - 1].0;
                assert(t[w + 1] == t2[w]);
            }
        }
        assert forall|j: int|
            0 <= j < t.len() implies s.contains(#[trigger] t[j]) || t[j] == (k, v) by {
            if j == 0 {
                assert(s[0] == t[0]);
            } else {
                assert(t[j] == t2[j - 1]);
                if t2[j - 1] == (k, v) {
                } else {
                    assert(d.contains(t2[j - 1]));
                    let w = choose|w: int| 0 <= w < d.len() && d[w] == t2[j - 1];
                    assert(s[w + 1] == d[w]);
                }
            }
        }
        assert forall|j: int| 0 <= j < s.len() && (#[trigger] s[j]).0 != k implies t.contains(
            s[j],
        ) by {
            if j == 0 {
                assert(t[0] == s[0]);
            } else {
                assert(d[j - 1] == s[j]);
                assert(t2.contains(d[j - 1]));
                let w = choose|w: int| 0 <= w < t2.len() && t2[w] == d[j - 1];
                assert(t[w + 1] == t2[w]);
            }
        }
        assert forall|j: int|
            0 <= j < t.len() && (#[trigger] t[j]).0 == k implies version_le(v, t[j].1) by {
            if j == 0 {
                assert(false);
            } else {
                assert(t[j] == t2[j - 1]);
            }
        }
        assert forall|j: int, j2: int|
            0 <= j < t.len() && 0 <= j2 < s.len() && (#[trigger] t[j]).0 == (#[trigger] s[j2]).0
            implies version_le(s[j2].1, t[j].1) by {
            if j == 0 {
                if j2 > 0 {
                    assert(key_lt(s[0].0, s[j2].0));
                    assert(false);
                }
                lemma_version_le_refl(s[0].1);
            } else {
                assert(t[j] == t2[j - 1]);
                if j2 == 0 {
                    assert(key_lt(s[0].0, t2[j - 1].0));
                    assert(false);
                } else {
                    assert(d[j2 - 1] == s[j2]);
                    assert(version_le(d[j2 - 1].1, t2[j - 1].1));
                }
            }
        }
    }
}

/// Keeps, for each (major, minor) line, the greatest version seen so far,
/// in a list sorted by key.
pub struct VersionAggregator {
    entries: Vec<(MajorMinorKey, Version)>,
}

/// The mathematical contents of an entry list.
pub open spec fn entries_view(s: Seq<(MajorMinorKey, Version)>) -> Seq<(MajorMinorKey, VersionView)> {
    s.map_values(|e: (MajorMinorKey, Version)| (e.0, e.1@))
}

impl View for VersionAggregator {
    type V = Seq<(MajorMinorKey, VersionView)>;

    closed spec fn view(&self) -> Seq<(MajorMinorKey, VersionView)> {
        entries_view(self.entries@)
    }
}

impl VersionAggregator {
    /// The aggregator's invariant.
    pub open spec fn wf(self) -> bool {
        wf_seq(self@)
    }

    /// An empty aggregator.
    pub fn new() -> (r: Self)
        ensures
            r.wf(),
            r@ == Seq::<(MajorMinorKey, VersionView)>::empty(),
    {
        let r = VersionAggregator { entries: Vec::new() };
        proof {
            assert(r@ =~= Seq::<(MajorMinorKey, VersionView)>::empty());
        }
        r
    }

    /// Feeds one version in: the entry for its (major, minor) key becomes the
    /// greater of the stored and the new version, and every other entry is
    /// untouched.
    pub fn insert(&mut self, version: Version)
        requires
            old(self).wf(),
        ensures
            final(self).wf(),
            final(self)@ == spec_insert(old(self)@, view_key(version@), version@),
    {
        let k = MajorMinorKey { major: version.major, minor: version.minor };
        proof {
            lemma_spec_insert(old(self)@, k, version@);
            assert(old(self)@.skip(0) =~= old(self)@);
        }
        let ghost target = spec_insert(old(self)@, k, version@);
        let mut i: usize = 0;
        loop
            invariant
                *self == *old(self),
                self.wf(),
                i <= self.entries.len(),
                k == view_key(version@),
                key_matches(k, version@),
                target == spec_insert(old(self)@, k, version@),
                target == old(self)@.take(i as int) + spec_insert(
                    old(self)@.skip(i as int),
                    k,
                    version@,
                ),
                forall|j: int| 0 <= j < i ==> key_lt((#[trigger] old(self)@[j]).0, k),
            decreases self.entries.len() - i,
        {
            let ghost sv = old(self)@;
            if i == self.entries.len() {
                proof {
                    assert(sv.skip(i as int) =~= Seq::<(MajorMinorKey, VersionView)>::empty());
                    assert(target =~= sv.push((k, version@)));
                }
                self.entries.push((k, version));
                proof {
                    assert(self@ =~= sv.push((k, version@)));
                }
                return;
            }
            let ek = self.entries[i].0;
            proof {
                assert(self@[i as int] == (ek, self.entries@[i as int].1@));
                assert(sv.skip(i as int)[0] == sv[i as int]);
            }
            if k.major < ek.major || (k.major == ek.major && k.minor < ek.minor) {
                proof {
                    assert(target =~= sv.take(i as int) + (seq![(k, version@)] + sv.skip(i as int)));
                }
                self.entries.insert(i, (k, version));
                proof {
                    assert(self@ =~= sv.take(i as int) + (seq![(k, version@)] + sv.skip(i as int)));
                }
                return;
            }
            if k == ek {
                let c = version.compare(&self.entries[i].1);
                if matches!(c, Cmp::Gt) {
                    proof {
                        assert(sv.skip(i as int).update(0, (k, version@)) =~= sv.update(
                            i as int,
                            (k, version@),
                        ).skip(i as int));
                        assert(target =~= sv.update(i as int, (k, version@)));
                    }
                    self.entries.remove(i);
                    self.entries.insert(i, (k, version));
                    proof {
                        assert(self@ =~= sv.update(i as int, (k, version@)));
                    }
                } else {
                    proof {
                        assert(target =~= sv);
                    }
                }
                return;
            }
            proof {
                assert(key_lt(ek, k));
                assert(sv.skip(i as int).drop_first() =~= sv.skip(i as int + 1));
                assert(sv.take(i as int) + (seq![sv[i as int]] + spec_insert(
                    sv.skip(i as int + 1),
                    k,
                    version@,
                )) =~= sv.take(i as int + 1) + spec_insert(sv.skip(i as int + 1), k, version@));
            }
            i = i + 1;
        }
    }

    /// The ordered key-to-version mapping, for serialization: sorted strictly
    /// ascending by key, one entry per observed key.
    pub fn snapshot(&self) -> (r: &Vec<(MajorMinorKey, Version)>)
        ensures
            entries_view(r@) == self@,
    {
        &self.entries
    }
}

/// Law: after any sequence of insertions the aggregate is well-formed and
/// holds one entry for each observed (major, minor) pair and no other; the
/// entry's version is itself one of the insertions with that pair and is
/// greatest among them.
pub proof fn lemma_aggregate_max(vs: Seq<VersionView>)
    requires
        forall|i: int| 0 <= i < vs.len() ==> in_range(#[trigger] vs[i]),
    ensures
        wf_seq(aggregate(vs)),
        forall|i: int| 0 <= i < vs.len() ==> has_key(aggregate(vs), view_key(#[trigger] vs[i])),
        forall|j: int|
            0 <= j < aggregate(vs).len() ==> exists|i: int|
                0 <= i < vs.len() && vs[i] == (#[trigger] aggregate(vs)[j]).1 && view_key(vs[i])
                    == aggregate(vs)[j].0,
        forall|j: int, i: int|
            0 <= j < aggregate(vs).len() && 0 <= i < vs.len() && view_key(#[trigger] vs[i])
                == (#[trigger] aggregate(vs)[j]).0 ==> version_le(vs[i], aggregate(vs)[j].1),
    decreases vs.len(),
{
    if vs.len() > 0 {
        let p = vs.drop_last();
        let u = vs.last();
        let k = view_key(u);
        assert(forall|i: int| 0 <= i < p.len() ==> #[trigger] p[i] == vs[i]);
        lemma_aggregate_max(p);
        let prev = aggregate(p);
        lemma_spec_insert(prev, k, u);
        let t = aggregate(vs);
        assert(t == spec_insert(prev, k, u));
        assert forall|i: int| 0 <= i < vs.len() implies has_key(t, view_key(#[trigger] vs[i])) by {
            if i < p.len() {
                assert(has_key(prev, view_key(p[i])));
                let w = choose|w: int|
                    0 <= w < prev.len() && (#[trigger] prev[w]).0 == view_key(p[i]);
                assert(has_key(t, prev[w].0));
            }
        }
        assert forall|j: int| 0 <= j < t.len() implies exists|i: int|
            0 <= i < vs.len() && vs[i] == (#[trigger] t[j]).1 && view_key(vs[i]) == t[j].0 by {
            if t[j] == (k, u) {
                assert(vs[vs.len() - 1] == u);
            } else {
                assert(prev.contains(t[j]));
                let w = choose|w: int| 0 <= w < prev.len() && prev[w] == t[j];
                let i = choose|i: int|
                    0 <= i < p.len() && p[i] == (#[trigger] prev[w]).1 && view_key(p[i])
                        == prev[w].0;
                assert(vs[i] == p[i]);
            }
        }
        assert forall|j: int, i: int|
            0 <= j < t.len() && 0 <= i < vs.len() && view_key(#[trigger] vs[i])
                == (#[trigger] t[j]).0 implies version_le(vs[i], t[j].1) by {
            if i < p.len() {
                assert(has_key(prev, view_key(p[i])));
                let w = choose|w: int|
                    0 <= w < prev.len() && (#[trigger] prev[w]).0 == view_key(p[i]);
                assert(version_le(p[i], prev[w].1));
                assert(version_le(prev[w].1, t[j].1));
                lemma_version_le_trans(vs[i], prev[w].1, t[j].1);
            } else {
                assert(vs[i] == u);
                assert(version_le(u, t[j].1));
            }
        }
    }
}

/// Two well-formed entry lists with the same keys and the same version at
/// every shared key are the same list.
proof fn lemma_wf_unique(
    t1: Seq<(MajorMinorKey, VersionView)>,
    t2: Seq<(MajorMinorKey, VersionView)>,
)
    requires
        wf_seq(t1),
        wf_seq(t2),
        forall|k: MajorMinorKey| #[trigger] has_key(t1, k) ==> has_key(t2, k),
        forall|k: MajorMinorKey| #[trigger] has_key(t2, k) ==> has_key(t1, k),
        forall|j1: int, j2: int|
            0 <= j1 < t1.len() && 0 <= j2 < t2.len() && (#[trigger] t1[j1]).0
                == (#[trigger] t2[j2]).0 ==> t1[j1].1 == t2[j2].1,
    ensures
        t1 == t2,
    decreases t1.len(),
{
    if t1.len() == 0 {
        if t2.len() > 0 {
            assert(has_key(t2, t2[0].0));
            assert(false);
        }
        assert(t1 =~= t2);
    } else if t2.len() == 0 {
        assert(has_key(t1, t1[0].0));
        assert(false);
    } else {
        assert(has_key(t1, t1[0].0));
        assert(has_key(t2, t1[0].0));
        let w2 = choose|w: int| 0 <= w < t2.len() && (#[trigger] t2[w]).0 == t1[0].0;
        if w2 > 0 {
            assert(key_lt(t2[0].0, t2[w2].0));
        }
        assert(has_key(t2, t2[0].0));
        assert(has_key(t1, t2[0].0));
        let w1 = choose|w: int| 0 <= w < t1.len() && (#[trigger] t1[w]).0 == t2[0].0;
        if w1 > 0 {
            assert(key_lt(t1[0].0, t1[w1].0));
        }
        assert(t1[0].0 == t2[0].0);
        assert(t1[0].1 == t2[0].1);
        let d1 = t1.drop_first();
        let d2 = t2.drop_first();
        assert(forall|j: int| 0 <= j < d1.len() ==> #[trigger] d1[j] == t1[j + 1]);
        assert(forall|j: int| 0 <= j < d2.len() ==> #[trigger] d2[j] == t2[j + 1]);
        assert forall|k: MajorMinorKey| #[trigger] has_key(d1, k) implies #[trigger] has_key(
            d2,
            k,
        ) by {
            let w = choose|w: int| 0 <= w < d1.len() && (#[trigger] d1[w]).0 == k;
            assert(t1[w + 1].0 == k);
            assert(key_lt(t1[0].0, k));
            assert(has_key(t1, k));
            assert(has_key(t2, k));
            let v = choose|v: int| 0 <= v < t2.len() && (#[trigger] t2[v]).0 == k;
            assert(v != 0);
            assert(d2[v - 1].0 == k);
        }
        assert forall|k: MajorMinorKey| #[trigger] has_key(d2, k) implies #[trigger] has_key(
            d1,
            k,
        ) by {
            let w = choose|w: int| 0 <= w < d2.len() && (#[trigger] d2[w]).0 == k;
            assert(t2[w + 1].0 == k);
            assert(key_lt(t2[0].0, k));
            assert(has_key(t2, k));
            assert(has_key(t1, k));
            let v = choose|v: int| 0 <= v < t1.len() && (#[trigger] t1[v]).0 == k;
            assert(v != 0);
            assert(d1[v - 1].0 == k);
        }
        lemma_wf_unique(d1, d2);
        assert forall|i: int| 0 <= i < t1.len() implies t1[i] == t2[i] by {
            if i > 0 {
                assert(d1[i - 1] == d2[i - 1]);
            }
        }
        assert(t1 =~= t2);
    }
}

/// A member of one sequence is a member of any sequence with the same
/// multiset of elements.
proof fn lemma_multiset_transfer(a: Seq<VersionView>, b: Seq<VersionView>, x: VersionView)
    requires
        a.to_multiset() == b.to_multiset(),
        a.contains(x),
    ensures
        b.contains(x),
{
    a.to_multiset_ensures();
    b.to_multiset_ensures();
    assert(a.to_multiset().count(x) > 0);
    assert(b.to_multiset().count(x) > 0);
}

/// Law: aggregation is order-independent. Two insertion sequences holding the
/// same versions, however arranged, aggregate to the same entry list.
pub proof fn lemma_aggregate_order_independent(a: Seq<VersionView>, b: Seq<VersionView>)
    requires
        a.to_multiset() == b.to_multiset(),
        forall|i: int| 0 <= i < a.len() ==> in_range(#[trigger] a[i]),
    ensures
        aggregate(a) == aggregate(b),
{
    assert forall|i: int| 0 <= i < b.len() implies in_range(#[trigger] b[i]) by {
        assert(b.contains(b[i]));
        lemma_multiset_transfer(b, a, b[i]);
        let w = choose|w: int| 0 <= w < a.len() && a[w] == b[i];
        assert(in_range(a[w]));
    }
    lemma_aggregate_max(a);
    lemma_aggregate_max(b);
    let la = aggregate(a);
    let lb = aggregate(b);
    assert forall|k: MajorMinorKey| #[trigger] has_key(la, k) implies #[trigger] has_key(
        lb,
        k,
    ) by {
        let j = choose|j: int| 0 <= j < la.len() && (#[trigger] la[j]).0 == k;
        let i = choose|i: int|
            0 <= i < a.len() && a[i] == (#[trigger] la[j]).1 && view_key(a[i]) == la[j].0;
        assert(a.contains(a[i]));
        lemma_multiset_transfer(a, b, a[i]);
        let i2 = choose|i2: int| 0 <= i2 < b.len() && b[i2] == a[i];
        assert(has_key(lb, view_key(b[i2])));
    }
    assert forall|k: MajorMinorKey| #[trigger] has_key(lb, k) implies #[trigger] has_key(
        la,
        k,
    ) by {
        let j = choose|j: int| 0 <= j < lb.len() && (#[trigger] lb[j]).0 == k;
        let i = choose|i: int|
            0 <= i < b.len() && b[i] == (#[trigger] lb[j]).1 && view_key(b[i]) == lb[j].0;
        assert(b.contains(b[i]));
        lemma_multiset_transfer(b, a, b[i]);
        let i2 = choose|i2: int| 0 <= i2 < a.len() && a[i2] == b[i];
        assert(has_key(la, view_key(a[i2])));
    }
    assert forall|j1: int, j2: int|
        0 <= j1 < la.len() && 0 <= j2 < lb.len() && (#[trigger] la[j1]).0 == (#[trigger] lb[j2]).0
        implies la[j1].1 == lb[j2].1 by {
        let i = choose|i: int|
            0 <= i < a.len() && a[i] == (#[trigger] la[j1]).1 && view_key(a[i]) == la[j1].0;
        assert(a.contains(a[i]));
        lemma_multiset_transfer(a, b, a[i]);
        let w = choose|w: int| 0 <= w < b.len() && b[w] == a[i];
        assert(view_key(b[w]) == lb[j2].0);
        assert(version_le(la[j1].1, lb[j2].1));
        let i2 = choose|i2: int|
            0 <= i2 < b.len() && b[i2] == (#[trigger] lb[j2]).1 && view_key(b[i2]) == lb[j2].0;
        assert(b.contains(b[i2]));
        lemma_multiset_transfer(b, a, b[i2]);
        let w2 = choose|w2: int| 0 <= w2 < a.len() && a[w2] == b[i2];
        assert(view_key(a[w2]) == la[j1].0);
        assert(version_le(lb[j2].1, la[j1].1));
        lemma_version_le_antisym(la[j1].1, lb[j2].1);
    }
    lemma_wf_unique(la, lb);
}

/// Law: one more insertion folds into the aggregate of the longer sequence.
pub proof fn lemma_aggregate_step(vs: Seq<VersionView>, v: VersionView)
    ensures
        aggregate(vs.push(v)) == spec_insert(aggregate(vs), view_key(v), v),
{
    assert(vs.push(v).drop_last() =~= vs);
    assert(vs.push(v).last() == v);
}

} // verus!
