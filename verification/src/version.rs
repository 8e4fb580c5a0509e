use vstd::prelude::*;

verus! {

/// Result of a three-way comparison.
#[derive(Clone, Copy, Debug, PartialEq, Eq, Structural)]
pub enum Cmp {
    Lt,
    Eq,
    Gt,
}

/// A semantic version. Pre-release and build metadata are kept as the raw
/// ASCII bytes that stand after the `-` and `+` separators (empty when
/// absent), so that the precedence rules on them can be stated and checked
/// here as plain byte-sequence functions.
pub struct Version {
    pub major: u64,
    pub minor: u64,
    pub patch: u64,
    pub pre: Vec<u8>,
    pub build: Vec<u8>,
}

/// The mathematical value of a `Version`.
#[verifier::ext_equal]
pub ghost struct VersionView {
    pub major: int,
    pub minor: int,
    pub patch: int,
    pub pre: Seq<u8>,
    pub build: Seq<u8>,
}

impl View for Version {
    type V = VersionView;

    open spec fn view(&self) -> VersionView {
        VersionView {
            major: self.major as int,
            minor: self.minor as int,
            patch: self.patch as int,
            pre: self.pre@,
            build: self.build@,
        }
    }
}

impl Clone for Version {
    /// Field-for-field copy; the value is unchanged.
    fn clone(&self) -> (r: Self)
        ensures
            r@ == self@,
    {
        Version {
            major: self.major,
            minor: self.minor,
            patch: self.patch,
            pre: clone_bytes(&self.pre),
            build: clone_bytes(&self.build),
        }
    }
}

/// Copies a byte vector.
fn clone_bytes(v: &Vec<u8>) -> (r: Vec<u8>)
    ensures
        r@ == v@,
{
    let mut r: Vec<u8> = Vec::new();
    let mut i: usize = 0;
    while i < v.len()
        invariant
            i <= v.len(),
            r@ == v@.take(i as int),
        decreases v.len() - i,
    {
        r.push(v[i]);
        proof {
            assert(v@.take(i as int).push(v@[i as int]) =~= v@.take(i as int + 1));
        }
        i = i + 1;
    }
    proof {
        assert(v@.take(v@.len() as int) =~= v@);
    }
    r
}

/// `second` breaks the tie when `first` is `Eq`.
pub open spec fn cmp_chain(first: Cmp, second: Cmp) -> Cmp {
    if first is Eq {
        second
    } else {
        first
    }
}

/// The comparison seen from the other side.
pub open spec fn flip(c: Cmp) -> Cmp {
    match c {
        Cmp::Lt => Cmp::Gt,
        Cmp::Eq => Cmp::Eq,
        Cmp::Gt => Cmp::Lt,
    }
}

/// Three-way comparison of integers.
pub open spec fn int_cmp(a: int, b: int) -> Cmp {
    if a < b {
        Cmp::Lt
    } else if a > b {
        Cmp::Gt
    } else {
        Cmp::Eq
    }
}

/// ASCII decimal digit.
pub open spec fn is_digit(b: u8) -> bool {
    48u8 <= b && b <= 57u8
}

/// Every byte of `s` is an ASCII digit (true of the empty sequence).
pub open spec fn all_digits(s: Seq<u8>) -> bool {
    forall|i: int| 0 <= i < s.len() ==> is_digit(#[trigger] s[i])
}

/// Lexicographic byte comparison, as `str`'s ordinary order compares ASCII.
pub open spec fn lex_cmp(a: Seq<u8>, b: Seq<u8>) -> Cmp
    decreases a.len(),
{
    if a.len() == 0 && b.len() == 0 {
        Cmp::Eq
    } else if a.len() == 0 {
        Cmp::Lt
    } else if b.len() == 0 {
        Cmp::Gt
    } else if a[0] < b[0] {
        Cmp::Lt
    } else if a[0] > b[0] {
        Cmp::Gt
    } else {
        lex_cmp(a.drop_first(), b.drop_first())
    }
}

/// Numeric identifiers compare by length first, then lexically: for digit
/// strings without leading zeros this is exactly comparison by value.
pub open spec fn num_cmp(a: Seq<u8>, b: Seq<u8>) -> Cmp {
    cmp_chain(int_cmp(a.len() as int, b.len() as int), lex_cmp(a, b))
}

/// Drops leading ASCII zeros.
pub open spec fn trim_zeros(s: Seq<u8>) -> Seq<u8>
    decreases s.len(),
{
    if s.len() > 0 && s[0] == 48u8 {
        trim_zeros(s.drop_first())
    } else {
        s
    }
}

/// One pre-release identifier against another: digits-only identifiers
/// compare numerically and sort below all others; the rest compare lexically
/// in ASCII order.
pub open spec fn pre_ident_cmp(a: Seq<u8>, b: Seq<u8>) -> Cmp {
    if all_digits(a) && all_digits(b) {
        num_cmp(a, b)
    } else if all_digits(a) {
        Cmp::Lt
    } else if all_digits(b) {
        Cmp::Gt
    } else {
        lex_cmp(a, b)
    }
}

/// One build identifier against another. Digits-only identifiers may carry
/// leading zeros here: they compare by value first (leading zeros trimmed)
/// and a longer spelling of the same value sorts higher.
pub open spec fn build_ident_cmp(a: Seq<u8>, b: Seq<u8>) -> Cmp {
    if all_digits(a) && all_digits(b) {
        cmp_chain(
            num_cmp(trim_zeros(a), trim_zeros(b)),
            int_cmp(a.len() as int, b.len() as int),
        )
    } else if all_digits(a) {
        Cmp::Lt
    } else if all_digits(b) {
        Cmp::Gt
    } else {
        lex_cmp(a, b)
    }
}

/// Dot-separated identifier lists compare pointwise; with a common prefix,
/// the shorter list sorts lower.
pub open spec fn idents_cmp_with(
    f: spec_fn(Seq<u8>, Seq<u8>) -> Cmp,
    a: Seq<Seq<u8>>,
    b: Seq<Seq<u8>>,
) -> Cmp
    decreases a.len(),
{
    if a.len() == 0 && b.len() == 0 {
        Cmp::Eq
    } else if a.len() == 0 {
        Cmp::Lt
    } else if b.len() == 0 {
        Cmp::Gt
    } else {
        cmp_chain(f(a[0], b[0]), idents_cmp_with(f, a.drop_first(), b.drop_first()))
    }
}

/// Splits a byte sequence at every dot. The empty sequence splits into one
/// empty identifier.
pub open spec fn split_dots(s: Seq<u8>) -> Seq<Seq<u8>>
    decreases s.len(),
{
    if s.len() == 0 {
        seq![Seq::<u8>::empty()]
    } else {
        let init = split_dots(s.drop_last());
        if s.last() == 46u8 {
            init.push(Seq::<u8>::empty())
        } else {
            init.update(init.len() - 1, init.last().push(s.last()))
        }
    }
}

/// The pre-release identifier comparison, as a value.
pub open spec fn pre_ident_fn() -> spec_fn(Seq<u8>, Seq<u8>) -> Cmp {
    |x: Seq<u8>, y: Seq<u8>| pre_ident_cmp(x, y)
}

/// The build identifier comparison, as a value.
pub open spec fn build_ident_fn() -> spec_fn(Seq<u8>, Seq<u8>) -> Cmp {
    |x: Seq<u8>, y: Seq<u8>| build_ident_cmp(x, y)
}

/// Pre-release precedence: a version without pre-release sorts above any
/// version with one; two pre-releases compare identifier by identifier.
pub open spec fn pre_cmp(a: Seq<u8>, b: Seq<u8>) -> Cmp {
    if a.len() == 0 && b.len() == 0 {
        Cmp::Eq
    } else if a.len() == 0 {
        Cmp::Gt
    } else if b.len() == 0 {
        Cmp::Lt
    } else {
        idents_cmp_with(pre_ident_fn(), split_dots(a), split_dots(b))
    }
}

/// Build metadata order: absent sorts below present; otherwise identifier by
/// identifier.
pub open spec fn build_cmp(a: Seq<u8>, b: Seq<u8>) -> Cmp {
    if a.len() == 0 && b.len() == 0 {
        Cmp::Eq
    } else if a.len() == 0 {
        Cmp::Lt
    } else if b.len() == 0 {
        Cmp::Gt
    } else {
        idents_cmp_with(build_ident_fn(), split_dots(a), split_dots(b))
    }
}

/// The total order on versions: major, minor, patch numerically, then
/// pre-release precedence, then build metadata as the final tie-break.
pub open spec fn version_cmp(a: VersionView, b: VersionView) -> Cmp {
    cmp_chain(
        int_cmp(a.major, b.major),
        cmp_chain(
            int_cmp(a.minor, b.minor),
            cmp_chain(
                int_cmp(a.patch, b.patch),
                cmp_chain(pre_cmp(a.pre, b.pre), build_cmp(a.build, b.build)),
            ),
        ),
    )
}

/// `a` sorts no higher than `b`.
pub open spec fn version_le(a: VersionView, b: VersionView) -> bool {
    !(version_cmp(a, b) is Gt)
}

impl Version {
    /// Decides the version order: the result is exactly `version_cmp` on the
    /// two values.
    pub fn compare(&self, other: &Version) -> (c: Cmp)
        ensures
            c == version_cmp(self@, other@),
    {
        if self.major != other.major {
            return if self.major < other.major {
                Cmp::Lt
            } else {
                Cmp::Gt
            };
        }
        if self.minor != other.minor {
            return if self.minor < other.minor {
                Cmp::Lt
            } else {
                Cmp::Gt
            };
        }
        if self.patch != other.patch {
            return if self.patch < other.patch {
                Cmp::Lt
            } else {
                Cmp::Gt
            };
        }
        let pc = pre_compare(&self.pre, &other.pre);
        if !matches!(pc, Cmp::Eq) {
            return pc;
        }
        build_compare(&self.build, &other.build)
    }
}

/// Decides `lex_cmp`.
fn lex_compare(a: &Vec<u8>, b: &Vec<u8>) -> (c: Cmp)
    ensures
        c == lex_cmp(a@, b@),
{
    proof {
        assert(a@.skip(0) =~= a@);
        assert(b@.skip(0) =~= b@);
    }
    let mut i: usize = 0;
    loop
        invariant
            i <= a.len(),
            i <= b.len(),
            lex_cmp(a@, b@) == lex_cmp(a@.skip(i as int), b@.skip(i as int)),
        decreases a.len() - i,
    {
        if i == a.len() && i == b.len() {
            return Cmp::Eq;
        }
        if i == a.len() {
            return Cmp::Lt;
        }
        if i == b.len() {
            return Cmp::Gt;
        }
        if a[i] < b[i] {
            return Cmp::Lt;
        }
        if a[i] > b[i] {
            return Cmp::Gt;
        }
        proof {
            assert(a@.skip(i as int).drop_first() =~= a@.skip(i as int + 1));
            assert(b@.skip(i as int).drop_first() =~= b@.skip(i as int + 1));
        }
        i = i + 1;
    }
}

/// Decides `all_digits`.
fn check_all_digits(a: &Vec<u8>) -> (r: bool)
    ensures
        r == all_digits(a@),
{
    let mut i: usize = 0;
    while i < a.len()
        invariant
            i <= a.len(),
            forall|j: int| 0 <= j < i ==> is_digit(#[trigger] a@[j]),
        decreases a.len() - i,
    {
        if a[i] < 48u8 || a[i] > 57u8 {
            return false;
        }
        i = i + 1;
    }
    true
}

/// Copies `v` with its leading ASCII zeros dropped.
fn trim_zeros_vec(v: &Vec<u8>) -> (r: Vec<u8>)
    ensures
        r@ == trim_zeros(v@),
{
    proof {
        assert(v@.skip(0) =~= v@);
    }
    let mut k: usize = 0;
    while k < v.len() && v[k] == 48u8
        invariant
            k <= v.len(),
            trim_zeros(v@) == trim_zeros(v@.skip(k as int)),
        decreases v.len() - k,
    {
        proof {
            assert(v@.skip(k as int).drop_first() =~= v@.skip(k as int + 1));
        }
        k = k + 1;
    }
    let mut r: Vec<u8> = Vec::new();
    let mut i: usize = k;
    while i < v.len()
        invariant
            k <= i <= v.len(),
            r@ == v@.subrange(k as int, i as int),
        decreases v.len() - i,
    {
        r.push(v[i]);
        proof {
            assert(v@.subrange(k as int, i as int).push(v@[i as int]) =~= v@.subrange(
                k as int,
                i as int + 1,
            ));
        }
        i = i + 1;
    }
    proof {
        assert(v@.subrange(k as int, v@.len() as int) =~= v@.skip(k as int));
    }
    r
}

/// Decides `num_cmp`.
fn num_compare(a: &Vec<u8>, b: &Vec<u8>) -> (c: Cmp)
    ensures
        c == num_cmp(a@, b@),
{
    if a.len() < b.len() {
        Cmp::Lt
    } else if a.len() > b.len() {
        Cmp::Gt
    } else {
        lex_compare(a, b)
    }
}

/// Decides `pre_ident_cmp`.
fn pre_ident_compare(a: &Vec<u8>, b: &Vec<u8>) -> (c: Cmp)
    ensures
        c == pre_ident_cmp(a@, b@),
{
    let da = check_all_digits(a);
    let db = check_all_digits(b);
    if da && db {
        num_compare(a, b)
    } else if da {
        Cmp::Lt
    } else if db {
        Cmp::Gt
    } else {
        lex_compare(a, b)
    }
}

/// Decides `build_ident_cmp`.
fn build_ident_compare(a: &Vec<u8>, b: &Vec<u8>) -> (c: Cmp)
    ensures
        c == build_ident_cmp(a@, b@),
{
    let da = check_all_digits(a);
    let db = check_all_digits(b);
    if da && db {
        let ta = trim_zeros_vec(a);
        let tb = trim_zeros_vec(b);
        let first = num_compare(&ta, &tb);
        if !matches!(first, Cmp::Eq) {
            return first;
        }
        if a.len() < b.len() {
            Cmp::Lt
        } else if a.len() > b.len() {
            Cmp::Gt
        } else {
            Cmp::Eq
        }
    } else if da {
        Cmp::Lt
    } else if db {
        Cmp::Gt
    } else {
        lex_compare(a, b)
    }
}

/// The identifiers of a split, as byte sequences.
pub open spec fn parts_view(v: Seq<Vec<u8>>) -> Seq<Seq<u8>> {
    v.map_values(|x: Vec<u8>| x@)
}

/// Splits at every dot; the result is exactly `split_dots` of the input.
fn split_idents(s: &Vec<u8>) -> (parts: Vec<Vec<u8>>)
    ensures
        parts_view(parts@) == split_dots(s@),
{
    let mut parts: Vec<Vec<u8>> = Vec::new();
    let mut cur: Vec<u8> = Vec::new();
    let mut i: usize = 0;
    while i < s.len()
        invariant
            i <= s.len(),
            parts_view(parts@).push(cur@) == split_dots(s@.take(i as int)),
        decreases s.len() - i,
    {
        proof {
            assert(s@.take(i as int + 1).drop_last() =~= s@.take(i as int));
            assert(s@.take(i as int + 1).last() == s@[i as int]);
        }
        if s[i] == 46u8 {
            let ghost old_parts = parts_view(parts@);
            let ghost old_cur = cur@;
            parts.push(cur);
            cur = Vec::new();
            proof {
                assert(parts_view(parts@) =~= old_parts.push(old_cur));
                assert(parts_view(parts@).push(cur@) =~= split_dots(s@.take(i as int)).push(
                    Seq::<u8>::empty(),
                ));
            }
        } else {
            let ghost old_split = split_dots(s@.take(i as int));
            cur.push(s[i]);
            proof {
                assert(old_split.last() == old_split[old_split.len() - 1]);
                assert(parts_view(parts@).push(cur@) =~= old_split.update(
                    old_split.len() - 1,
                    old_split.last().push(s@[i as int]),
                ));
            }
        }
        i = i + 1;
    }
    parts.push(cur);
    proof {
        assert(s@.take(s@.len() as int) =~= s@);
    }
    parts
}

/// Decides `idents_cmp_with(pre_ident_fn(), ..)` on split identifier lists.
fn pre_idents_compare(a: &Vec<Vec<u8>>, b: &Vec<Vec<u8>>) -> (c: Cmp)
    ensures
        c == idents_cmp_with(pre_ident_fn(), parts_view(a@), parts_view(b@)),
{
    let ghost va = parts_view(a@);
    let ghost vb = parts_view(b@);
    proof {
        assert(va.skip(0) =~= va);
        assert(vb.skip(0) =~= vb);
    }
    let mut i: usize = 0;
    loop
        invariant
            i <= a.len(),
            i <= b.len(),
            va == parts_view(a@),
            vb == parts_view(b@),
            idents_cmp_with(pre_ident_fn(), va, vb) == idents_cmp_with(
                pre_ident_fn(),
                va.skip(i as int),
                vb.skip(i as int),
            ),
        decreases a.len() - i,
    {
        if i == a.len() && i == b.len() {
            return Cmp::Eq;
        }
        if i == a.len() {
            return Cmp::Lt;
        }
        if i == b.len() {
            return Cmp::Gt;
        }
        let c = pre_ident_compare(&a[i], &b[i]);
        if !matches!(c, Cmp::Eq) {
            return c;
        }
        proof {
            assert(va.skip(i as int).drop_first() =~= va.skip(i as int + 1));
            assert(vb.skip(i as int).drop_first() =~= vb.skip(i as int + 1));
            assert(va.skip(i as int)[0] == va[i as int]);
            assert(vb.skip(i as int)[0] == vb[i as int]);
        }
        i = i + 1;
    }
}

/// Decides `idents_cmp_with(build_ident_fn(), ..)` on split identifier lists.
fn build_idents_compare(a: &Vec<Vec<u8>>, b: &Vec<Vec<u8>>) -> (c: Cmp)
    ensures
        c == idents_cmp_with(build_ident_fn(), parts_view(a@), parts_view(b@)),
{
    let ghost va = parts_view(a@);
    let ghost vb = parts_view(b@);
    proof {
        assert(va.skip(0) =~= va);
        assert(vb.skip(0) =~= vb);
    }
    let mut i: usize = 0;
    loop
        invariant
            i <= a.len(),
            i <= b.len(),
            va == parts_view(a@),
            vb == parts_view(b@),
            idents_cmp_with(build_ident_fn(), va, vb) == idents_cmp_with(
                build_ident_fn(),
                va.skip(i as int),
                vb.skip(i as int),
            ),
        decreases a.len() - i,
    {
        if i == a.len() && i == b.len() {
            return Cmp::Eq;
        }
        if i == a.len() {
            return Cmp::Lt;
        }
        if i == b.len() {
            return Cmp::Gt;
        }
        let c = build_ident_compare(&a[i], &b[i]);
        if !matches!(c, Cmp::Eq) {
            return c;
        }
        proof {
            assert(va.skip(i as int).drop_first() =~= va.skip(i as int + 1));
            assert(vb.skip(i as int).drop_first() =~= vb.skip(i as int + 1));
            assert(va.skip(i as int)[0] == va[i as int]);
            assert(vb.skip(i as int)[0] == vb[i as int]);
        }
        i = i + 1;
    }
}

/// Decides `pre_cmp`.
fn pre_compare(a: &Vec<u8>, b: &Vec<u8>) -> (c: Cmp)
    ensures
        c == pre_cmp(a@, b@),
{
    if a.len() == 0 && b.len() == 0 {
        Cmp::Eq
    } else if a.len() == 0 {
        Cmp::Gt
    } else if b.len() == 0 {
        Cmp::Lt
    } else {
        let pa = split_idents(a);
        let pb = split_idents(b);
        pre_idents_compare(&pa, &pb)
    }
}

/// Decides `build_cmp`.
fn build_compare(a: &Vec<u8>, b: &Vec<u8>) -> (c: Cmp)
    ensures
        c == build_cmp(a@, b@),
{
    if a.len() == 0 && b.len() == 0 {
        Cmp::Eq
    } else if a.len() == 0 {
        Cmp::Lt
    } else if b.len() == 0 {
        Cmp::Gt
    } else {
        let pa = split_idents(a);
        let pb = split_idents(b);
        build_idents_compare(&pa, &pb)
    }
}

proof fn lemma_lex_flip(a: Seq<u8>, b: Seq<u8>)
    ensures
        lex_cmp(b, a) == flip(lex_cmp(a, b)),
    decreases a.len(),
{
    if a.len() > 0 && b.len() > 0 && a[0] == b[0] {
        lemma_lex_flip(a.drop_first(), b.drop_first());
    }
}

proof fn lemma_lex_eq(a: Seq<u8>, b: Seq<u8>)
    requires
        lex_cmp(a, b) is Eq,
    ensures
        a == b,
    decreases a.len(),
{
    if a.len() > 0 {
        lemma_lex_eq(a.drop_first(), b.drop_first());
        assert forall|i: int| 0 <= i < a.len() implies a[i] == b[i] by {
            if i > 0 {
                assert(a.drop_first()[i - 1] == b.drop_first()[i - 1]);
            }
        }
        assert(a =~= b);
    } else {
        assert(a =~= b);
    }
}

proof fn lemma_lex_trans(a: Seq<u8>, b: Seq<u8>, c: Seq<u8>)
    requires
        lex_cmp(a, b) is Lt,
        lex_cmp(b, c) is Lt,
    ensures
        lex_cmp(a, c) is Lt,
    decreases a.len(),
{
    if a.len() > 0 && b.len() > 0 && c.len() > 0 && a[0] == b[0] && b[0] == c[0] {
        lemma_lex_trans(a.drop_first(), b.drop_first(), c.drop_first());
    }
}

proof fn lemma_num_flip(a: Seq<u8>, b: Seq<u8>)
    ensures
        num_cmp(b, a) == flip(num_cmp(a, b)),
{
    lemma_lex_flip(a, b);
}

proof fn lemma_num_eq(a: Seq<u8>, b: Seq<u8>)
    requires
        num_cmp(a, b) is Eq,
    ensures
        a == b,
{
    lemma_lex_eq(a, b);
}

proof fn lemma_num_trans(a: Seq<u8>, b: Seq<u8>, c: Seq<u8>)
    requires
        num_cmp(a, b) is Lt,
        num_cmp(b, c) is Lt,
    ensures
        num_cmp(a, c) is Lt,
{
    if a.len() == b.len() && b.len() == c.len() {
        lemma_lex_trans(a, b, c);
    }
}

/// A sequence is its leading zeros followed by its trimmed remainder.
proof fn lemma_trim_decompose(s: Seq<u8>)
    ensures
        trim_zeros(s).len() <= s.len(),
        trim_zeros(s) == s.skip(s.len() - trim_zeros(s).len()),
        forall|j: int| 0 <= j < s.len() - trim_zeros(s).len() ==> s[j] == 48u8,
    decreases s.len(),
{
    if s.len() > 0 && s[0] == 48u8 {
        lemma_trim_decompose(s.drop_first());
        let t = trim_zeros(s);
        assert(s.drop_first().skip(s.drop_first().len() - t.len()) =~= s.skip(s.len() - t.len()));
        assert forall|j: int| 0 <= j < s.len() - t.len() implies s[j] == 48u8 by {
            if j > 0 {
                assert(s.drop_first()[j - 1] == 48u8);
            }
        }
    } else {
        assert(s.skip(0) =~= s);
    }
}

proof fn lemma_pre_ident_flip(a: Seq<u8>, b: Seq<u8>)
    ensures
        pre_ident_cmp(b, a) == flip(pre_ident_cmp(a, b)),
{
    lemma_num_flip(a, b);
    lemma_lex_flip(a, b);
}

proof fn lemma_pre_ident_eq(a: Seq<u8>, b: Seq<u8>)
    requires
        pre_ident_cmp(a, b) is Eq,
    ensures
        a == b,
{
    if all_digits(a) && all_digits(b) {
        lemma_num_eq(a, b);
    } else {
        lemma_lex_eq(a, b);
    }
}

proof fn lemma_pre_ident_trans(a: Seq<u8>, b: Seq<u8>, c: Seq<u8>)
    requires
        pre_ident_cmp(a, b) is Lt,
        pre_ident_cmp(b, c) is Lt,
    ensures
        pre_ident_cmp(a, c) is Lt,
{
    if all_digits(a) && all_digits(b) && all_digits(c) {
        lemma_num_trans(a, b, c);
    } else if !all_digits(a) && !all_digits(b) && !all_digits(c) {
        lemma_lex_trans(a, b, c);
    }
}

proof fn lemma_build_ident_flip(a: Seq<u8>, b: Seq<u8>)
    ensures
        build_ident_cmp(b, a) == flip(build_ident_cmp(a, b)),
{
    lemma_num_flip(trim_zeros(a), trim_zeros(b));
    lemma_lex_flip(a, b);
}

proof fn lemma_build_ident_eq(a: Seq<u8>, b: Seq<u8>)
    requires
        build_ident_cmp(a, b) is Eq,
    ensures
        a == b,
{
    if all_digits(a) && all_digits(b) {
        lemma_num_eq(trim_zeros(a), trim_zeros(b));
        lemma_trim_decompose(a);
        lemma_trim_decompose(b);
        let t = trim_zeros(a);
        let z = a.len() - t.len();
        assert forall|j: int| 0 <= j < a.len() implies a[j] == b[j] by {
            if j >= z {
                assert(a.skip(z)[j - z] == a[j]);
                assert(b.skip(z)[j - z] == b[j]);
            }
        }
        assert(a =~= b);
    } else {
        lemma_lex_eq(a, b);
    }
}

proof fn lemma_build_ident_trans(a: Seq<u8>, b: Seq<u8>, c: Seq<u8>)
    requires
        build_ident_cmp(a, b) is Lt,
        build_ident_cmp(b, c) is Lt,
    ensures
        build_ident_cmp(a, c) is Lt,
{
    if all_digits(a) && all_digits(b) && all_digits(c) {
        let ta = trim_zeros(a);
        let tb = trim_zeros(b);
        let tc = trim_zeros(c);
        if num_cmp(ta, tb) is Eq {
            lemma_num_eq(ta, tb);
        }
        if num_cmp(tb, tc) is Eq {
            lemma_num_eq(tb, tc);
        }
        if num_cmp(ta, tb) is Lt && num_cmp(tb, tc) is Lt {
            lemma_num_trans(ta, tb, tc);
        }
    } else if !all_digits(a) && !all_digits(b) && !all_digits(c) {
        lemma_lex_trans(a, b, c);
    }
}

proof fn lemma_idents_flip(f: spec_fn(Seq<u8>, Seq<u8>) -> Cmp, a: Seq<Seq<u8>>, b: Seq<Seq<u8>>)
    requires
        forall|x: Seq<u8>, y: Seq<u8>| #[trigger] f(x, y) == flip(f(y, x)),
    ensures
        idents_cmp_with(f, b, a) == flip(idents_cmp_with(f, a, b)),
    decreases a.len(),
{
    if a.len() > 0 && b.len() > 0 {
        lemma_idents_flip(f, a.drop_first(), b.drop_first());
        assert(f(a[0], b[0]) == flip(f(b[0], a[0])));
    }
}

proof fn lemma_idents_eq(f: spec_fn(Seq<u8>, Seq<u8>) -> Cmp, a: Seq<Seq<u8>>, b: Seq<Seq<u8>>)
    requires
        forall|x: Seq<u8>, y: Seq<u8>| (#[trigger] f(x, y)) is Eq ==> x == y,
        idents_cmp_with(f, a, b) is Eq,
    ensures
        a == b,
    decreases a.len(),
{
    if a.len() > 0 {
        assert(f(a[0], b[0]) is Eq ==> a[0] == b[0]);
        lemma_idents_eq(f, a.drop_first(), b.drop_first());
        assert forall|i: int| 0 <= i < a.len() implies a[i] == b[i] by {
            if i > 0 {
                assert(a.drop_first()[i - 1] == b.drop_first()[i - 1]);
            }
        }
        assert(a =~= b);
    } else {
        assert(a =~= b);
    }
}

proof fn lemma_idents_trans(
    f: spec_fn(Seq<u8>, Seq<u8>) -> Cmp,
    a: Seq<Seq<u8>>,
    b: Seq<Seq<u8>>,
    c: Seq<Seq<u8>>,
)
    requires
        forall|x: Seq<u8>, y: Seq<u8>| (#[trigger] f(x, y)) is Eq ==> x == y,
        forall|x: Seq<u8>, y: Seq<u8>, z: Seq<u8>|
            #![trigger f(x, y), f(y, z)]
            f(x, y) is Lt && f(y, z) is Lt ==> f(x, z) is Lt,
        idents_cmp_with(f, a, b) is Lt,
        idents_cmp_with(f, b, c) is Lt,
    ensures
        idents_cmp_with(f, a, c) is Lt,
    decreases a.len(),
{
    if a.len() > 0 && b.len() > 0 && c.len() > 0 {
        let cab = f(a[0], b[0]);
        let cbc = f(b[0], c[0]);
        if cab is Eq {
            assert(a[0] == b[0]);
        }
        if cbc is Eq {
            assert(b[0] == c[0]);
        }
        if cab is Lt && cbc is Lt {
            assert(f(a[0], c[0]) is Lt);
        }
        if cab is Eq && cbc is Eq {
            lemma_idents_trans(f, a.drop_first(), b.drop_first(), c.drop_first());
        }
    }
}

proof fn lemma_split_len(s: Seq<u8>)
    ensures
        split_dots(s).len() >= 1,
    decreases s.len(),
{
    if s.len() > 0 {
        lemma_split_len(s.drop_last());
    }
}

/// Puts a split back together, a dot between identifiers.
spec fn join_dots(parts: Seq<Seq<u8>>) -> Seq<u8>
    decreases parts.len(),
{
    if parts.len() == 0 {
        Seq::<u8>::empty()
    } else if parts.len() == 1 {
        parts[0]
    } else {
        join_dots(parts.drop_last()) + seq![46u8] + parts.last()
    }
}

proof fn lemma_split_join(s: Seq<u8>)
    ensures
        join_dots(split_dots(s)) == s,
    decreases s.len(),
{
    if s.len() == 0 {
        assert(join_dots(split_dots(s)) =~= s);
    } else {
        lemma_split_join(s.drop_last());
        lemma_split_len(s.drop_last());
        let init = split_dots(s.drop_last());
        if s.last() == 46u8 {
            assert(init.push(Seq::<u8>::empty()).drop_last() =~= init);
            assert(join_dots(split_dots(s)) =~= s);
        } else {
            let upd = init.update(init.len() - 1, init.last().push(s.last()));
            if init.len() == 1 {
                assert(upd[0] =~= join_dots(init).push(s.last()));
                assert(join_dots(split_dots(s)) =~= s);
            } else {
                assert(upd.drop_last() =~= init.drop_last());
                assert(upd.last() =~= init.last().push(s.last()));
                assert(join_dots(upd) =~= join_dots(init).push(s.last()));
                assert(join_dots(init).push(s.last()) =~= s);
            }
        }
    }
}

proof fn lemma_split_injective(a: Seq<u8>, b: Seq<u8>)
    requires
        split_dots(a) == split_dots(b),
    ensures
        a == b,
{
    lemma_split_join(a);
    lemma_split_join(b);
}

proof fn lemma_pre_flip(a: Seq<u8>, b: Seq<u8>)
    ensures
        pre_cmp(b, a) == flip(pre_cmp(a, b)),
{
    if a.len() > 0 && b.len() > 0 {
        let f = pre_ident_fn();
        assert forall|x: Seq<u8>, y: Seq<u8>| #[trigger] f(x, y) == flip(f(y, x)) by {
            lemma_pre_ident_flip(y, x);
        }
        lemma_idents_flip(f, split_dots(a), split_dots(b));
    }
}

proof fn lemma_pre_eq(a: Seq<u8>, b: Seq<u8>)
    requires
        pre_cmp(a, b) is Eq,
    ensures
        a == b,
{
    if a.len() > 0 && b.len() > 0 {
        let f = pre_ident_fn();
        assert forall|x: Seq<u8>, y: Seq<u8>| (#[trigger] f(x, y)) is Eq implies x == y by {
            lemma_pre_ident_eq(x, y);
        }
        lemma_idents_eq(f, split_dots(a), split_dots(b));
        lemma_split_injective(a, b);
    } else {
        assert(a =~= b);
    }
}

proof fn lemma_pre_trans(a: Seq<u8>, b: Seq<u8>, c: Seq<u8>)
    requires
        pre_cmp(a, b) is Lt,
        pre_cmp(b, c) is Lt,
    ensures
        pre_cmp(a, c) is Lt,
{
    if a.len() > 0 && b.len() > 0 && c.len() > 0 {
        let f = pre_ident_fn();
        assert forall|x: Seq<u8>, y: Seq<u8>| (#[trigger] f(x, y)) is Eq implies x == y by {
            lemma_pre_ident_eq(x, y);
        }
        assert forall|x: Seq<u8>, y: Seq<u8>, z: Seq<u8>|
            #![trigger f(x, y), f(y, z)]
            f(x, y) is Lt && f(y, z) is Lt implies f(x, z) is Lt by {
            lemma_pre_ident_trans(x, y, z);
        }
        lemma_idents_trans(f, split_dots(a), split_dots(b), split_dots(c));
    }
}

proof fn lemma_build_flip(a: Seq<u8>, b: Seq<u8>)
    ensures
        build_cmp(b, a) == flip(build_cmp(a, b)),
{
    if a.len() > 0 && b.len() > 0 {
        let f = build_ident_fn();
        assert forall|x: Seq<u8>, y: Seq<u8>| #[trigger] f(x, y) == flip(f(y, x)) by {
            lemma_build_ident_flip(y, x);
        }
        lemma_idents_flip(f, split_dots(a), split_dots(b));
    }
}

proof fn lemma_build_eq(a: Seq<u8>, b: Seq<u8>)
    requires
        build_cmp(a, b) is Eq,
    ensures
        a == b,
{
    if a.len() > 0 && b.len() > 0 {
        let f = build_ident_fn();
        assert forall|x: Seq<u8>, y: Seq<u8>| (#[trigger] f(x, y)) is Eq implies x == y by {
            lemma_build_ident_eq(x, y);
        }
        lemma_idents_eq(f, split_dots(a), split_dots(b));
        lemma_split_injective(a, b);
    } else {
        assert(a =~= b);
    }
}

proof fn lemma_build_trans(a: Seq<u8>, b: Seq<u8>, c: Seq<u8>)
    requires
        build_cmp(a, b) is Lt,
        build_cmp(b, c) is Lt,
    ensures
        build_cmp(a, c) is Lt,
{
    if a.len() > 0 && b.len() > 0 && c.len() > 0 {
        let f = build_ident_fn();
        assert forall|x: Seq<u8>, y: Seq<u8>| (#[trigger] f(x, y)) is Eq implies x == y by {
            lemma_build_ident_eq(x, y);
        }
        assert forall|x: Seq<u8>, y: Seq<u8>, z: Seq<u8>|
            #![trigger f(x, y), f(y, z)]
            f(x, y) is Lt && f(y, z) is Lt implies f(x, z) is Lt by {
            lemma_build_ident_trans(x, y, z);
        }
        lemma_idents_trans(f, split_dots(a), split_dots(b), split_dots(c));
    }
}

/// Law: swapping the sides of the comparison flips its outcome.
pub proof fn lemma_version_cmp_flip(a: VersionView, b: VersionView)
    ensures
        version_cmp(b, a) == flip(version_cmp(a, b)),
{
    lemma_pre_flip(a.pre, b.pre);
    lemma_build_flip(a.build, b.build);
}

/// Law: versions that compare equal are the same value.
pub proof fn lemma_version_cmp_eq(a: VersionView, b: VersionView)
    requires
        version_cmp(a, b) is Eq,
    ensures
        a == b,
{
    lemma_pre_eq(a.pre, b.pre);
    lemma_build_eq(a.build, b.build);
    assert(a =~= b);
}

/// Law: strict comparison is transitive.
pub proof fn lemma_version_cmp_trans(a: VersionView, b: VersionView, c: VersionView)
    requires
        version_cmp(a, b) is Lt,
        version_cmp(b, c) is Lt,
    ensures
        version_cmp(a, c) is Lt,
{
    if pre_cmp(a.pre, b.pre) is Eq {
        lemma_pre_eq(a.pre, b.pre);
    }
    if pre_cmp(b.pre, c.pre) is Eq {
        lemma_pre_eq(b.pre, c.pre);
    }
    if pre_cmp(a.pre, b.pre) is Lt && pre_cmp(b.pre, c.pre) is Lt {
        lemma_pre_trans(a.pre, b.pre, c.pre);
    }
    if build_cmp(a.build, b.build) is Eq {
        lemma_build_eq(a.build, b.build);
    }
    if build_cmp(b.build, c.build) is Eq {
        lemma_build_eq(b.build, c.build);
    }
    if build_cmp(a.build, b.build) is Lt && build_cmp(b.build, c.build) is Lt {
        lemma_build_trans(a.build, b.build, c.build);
    }
}

/// Law: the order is total.
pub proof fn lemma_version_le_total(a: VersionView, b: VersionView)
    ensures
        version_le(a, b) || version_le(b, a),
{
    lemma_version_cmp_flip(a, b);
}

/// Law: the order is reflexive.
pub proof fn lemma_version_le_refl(a: VersionView)
    ensures
        version_le(a, a),
{
    lemma_version_cmp_flip(a, a);
}

/// Law: the order is antisymmetric.
pub proof fn lemma_version_le_antisym(a: VersionView, b: VersionView)
    requires
        version_le(a, b),
        version_le(b, a),
    ensures
        a == b,
{
    lemma_version_cmp_flip(a, b);
    lemma_version_cmp_eq(a, b);
}

/// Law: the order is transitive.
pub proof fn lemma_version_le_trans(a: VersionView, b: VersionView, c: VersionView)
    requires
        version_le(a, b),
        version_le(b, c),
    ensures
        version_le(a, c),
{
    lemma_version_cmp_flip(a, b);
    lemma_version_cmp_flip(b, c);
    lemma_version_cmp_flip(a, c);
    if version_cmp(a, b) is Eq {
        lemma_version_cmp_eq(a, b);
    } else if version_cmp(b, c) is Eq {
        lemma_version_cmp_eq(b, c);
    } else {
        lemma_version_cmp_trans(a, b, c);
    }
}

} // verus!

