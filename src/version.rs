use vstd::prelude::*;
use vstd::utf8::encode_utf8;

verus! {

#[verifier::external_type_specification]
#[verifier::external_body]
pub struct ExSemverVersion(semver::Version);

#[verifier::external_type_specification]
#[verifier::external_body]
pub struct ExVersionReq(semver::VersionReq);

/// The byte `.`, which separates pre-release identifiers.
pub const ID_SEP: u8 = 46;

/// What `semver::Version::parse` makes of a text: `None` where it refuses
/// the text, else the major, minor and patch numbers and the pre-release
/// part as bytes (empty for a release).
pub uninterp spec fn parsed_version(s: Seq<char>) -> Option<(u64, u64, u64, Seq<u8>)>;

/// Whether `semver::VersionReq::parse` accepts a range text.
pub uninterp spec fn range_parses(r: Seq<char>) -> bool;

/// Whether the range written `r` admits the version written `v`, as
/// `semver::VersionReq::matches` decides it (pre-releases only where the
/// range names a pre-release of the same major, minor and patch).
pub uninterp spec fn range_admits(r: Seq<char>, v: Seq<char>) -> bool;

/// The pieces of `p` between the separator `sep`, empty pieces included.
pub open spec fn split_on(p: Seq<u8>, sep: u8) -> Seq<Seq<u8>>
    decreases p.len(),
{
    if p.len() == 0 {
        seq![Seq::empty()]
    } else {
        let prev = split_on(p.drop_last(), sep);
        if p.last() == sep {
            prev.push(Seq::empty())
        } else {
            prev.update(prev.len() - 1, prev.last().push(p.last()))
        }
    }
}

/// The identifiers of a pre-release part; a release has none.
pub open spec fn pre_ids(pre: Seq<u8>) -> Seq<Seq<u8>> {
    if pre.len() == 0 {
        Seq::empty()
    } else {
        split_on(pre, ID_SEP)
    }
}

pub open spec fn is_digit(b: u8) -> bool {
    48 <= b <= 57
}

pub open spec fn is_numeric(s: Seq<u8>) -> bool {
    forall|i: int| 0 <= i < s.len() ==> is_digit(#[trigger] s[i])
}

/// Lexicographic byte order, as `str`'s `Ord` compares.
pub open spec fn bytes_lt(a: Seq<u8>, b: Seq<u8>) -> bool
    decreases a.len(),
{
    if a.len() == 0 {
        b.len() > 0
    } else if b.len() == 0 {
        false
    } else if a[0] != b[0] {
        a[0] < b[0]
    } else {
        bytes_lt(a.drop_first(), b.drop_first())
    }
}

/// Precedence of two pre-release identifiers: numeric ones by value (they
/// carry no leading zeros, so by length, then by digits), numeric below
/// alphanumeric, alphanumeric ones in ASCII order.
pub open spec fn ident_lt(a: Seq<u8>, b: Seq<u8>) -> bool {
    if is_numeric(a) && is_numeric(b) {
        a.len() < b.len() || (a.len() == b.len() && bytes_lt(a, b))
    } else if is_numeric(a) {
        true
    } else if is_numeric(b) {
        false
    } else {
        bytes_lt(a, b)
    }
}

/// Identifier lists are compared one identifier at a time; a list that runs
/// out first is the lower one.
pub open spec fn ids_lt(x: Seq<Seq<u8>>, y: Seq<Seq<u8>>) -> bool
    decreases x.len(),
{
    if y.len() == 0 {
        false
    } else if x.len() == 0 {
        true
    } else if x[0] != y[0] {
        ident_lt(x[0], y[0])
    } else {
        ids_lt(x.drop_first(), y.drop_first())
    }
}

/// A release is above each of its pre-releases.
pub open spec fn pre_lt(a: Seq<u8>, b: Seq<u8>) -> bool {
    if a.len() == 0 {
        false
    } else if b.len() == 0 {
        true
    } else {
        ids_lt(pre_ids(a), pre_ids(b))
    }
}

/// Semantic-version precedence on parsed versions; build metadata takes no part.
pub open spec fn key_lt(a: (u64, u64, u64, Seq<u8>), b: (u64, u64, u64, Seq<u8>)) -> bool {
    if a.0 != b.0 {
        a.0 < b.0
    } else if a.1 != b.1 {
        a.1 < b.1
    } else if a.2 != b.2 {
        a.2 < b.2
    } else {
        pre_lt(a.3, b.3)
    }
}

/// Whether the text `v` is a version that the range `r` admits.
pub open spec fn admits(r: Seq<char>, v: Seq<char>) -> bool {
    parsed_version(v) is Some && range_admits(r, v)
}

/// Whether `v` is below `w` in precedence, both being version texts.
pub open spec fn version_lt(v: Seq<char>, w: Seq<char>) -> bool {
    key_lt(parsed_version(v).unwrap(), parsed_version(w).unwrap())
}

/// Whether `best` is a greatest version that `r` admits among `vs`.
/// Among versions equal in precedence (they differ in build metadata), the
/// one whose text is last in byte order.
pub open spec fn is_max_admitted(r: Seq<char>, vs: Seq<Seq<char>>, best: Seq<char>) -> bool {
    &&& admits(r, best)
    &&& exists|i: int| 0 <= i < vs.len() && vs[i] == best
    &&& forall|j: int| 0 <= j < vs.len() && admits(r, #[trigger] vs[j]) ==> !version_lt(best, vs[j])
    &&& forall|j: int|
        0 <= j < vs.len() && admits(r, #[trigger] vs[j]) && parsed_version(vs[j])
            == parsed_version(best) ==> !bytes_lt(encode_utf8(best), encode_utf8(vs[j]))
}

/// Precedence, then text bytes: a strict total order on distinct texts.
pub open spec fn full_lt(ka: (u64, u64, u64, Seq<u8>), ta: Seq<u8>, kb: (u64, u64, u64, Seq<u8>), tb: Seq<u8>) -> bool {
    key_lt(ka, kb) || (ka == kb && bytes_lt(ta, tb))
}

proof fn lemma_full_order(
    ka: (u64, u64, u64, Seq<u8>), ta: Seq<u8>,
    kb: (u64, u64, u64, Seq<u8>), tb: Seq<u8>,
    kc: (u64, u64, u64, Seq<u8>), tc: Seq<u8>,
)
    ensures
        !full_lt(ka, ta, ka, ta),
        (ka, ta) != (kb, tb) ==> full_lt(ka, ta, kb, tb) || full_lt(kb, tb, ka, ta),
        !(full_lt(ka, ta, kb, tb) && full_lt(kb, tb, ka, ta)),
        full_lt(ka, ta, kb, tb) && full_lt(kb, tb, kc, tc) ==> full_lt(ka, ta, kc, tc),
{
    lemma_key_order(ka, kb, kc);
    lemma_key_order(kb, ka, kc);
    lemma_key_order(ka, kc, kb);
    lemma_bytes_lt_irrefl(ta);
    lemma_bytes_lt_total(ta, tb);
    if bytes_lt(ta, tb) && bytes_lt(tb, tc) {
        lemma_bytes_lt_trans(ta, tb, tc);
    }
}

// ---- order facts ----

pub proof fn lemma_bytes_lt_irrefl(a: Seq<u8>)
    ensures
        !bytes_lt(a, a),
    decreases a.len(),
{
    if a.len() > 0 {
        lemma_bytes_lt_irrefl(a.drop_first());
    }
}

pub proof fn lemma_bytes_lt_total(a: Seq<u8>, b: Seq<u8>)
    ensures
        a != b ==> bytes_lt(a, b) || bytes_lt(b, a),
        !(bytes_lt(a, b) && bytes_lt(b, a)),
    decreases a.len(),
{
    if a.len() > 0 && b.len() > 0 {
        lemma_bytes_lt_total(a.drop_first(), b.drop_first());
        if a[0] == b[0] && a != b {
            assert(a =~= seq![a[0]] + a.drop_first());
            assert(b =~= seq![b[0]] + b.drop_first());
        }
    } else if a.len() == 0 && b.len() == 0 {
        assert(a =~= b);
    }
}

pub proof fn lemma_bytes_lt_trans(a: Seq<u8>, b: Seq<u8>, c: Seq<u8>)
    requires
        bytes_lt(a, b),
        bytes_lt(b, c),
    ensures
        bytes_lt(a, c),
    decreases a.len(),
{
    if a.len() > 0 && b.len() > 0 && c.len() > 0 && a[0] == b[0] && b[0] == c[0] {
        lemma_bytes_lt_trans(a.drop_first(), b.drop_first(), c.drop_first());
    }
}

proof fn lemma_ident_lt(a: Seq<u8>, b: Seq<u8>, c: Seq<u8>)
    ensures
        !ident_lt(a, a),
        a != b ==> ident_lt(a, b) || ident_lt(b, a),
        !(ident_lt(a, b) && ident_lt(b, a)),
        ident_lt(a, b) && ident_lt(b, c) ==> ident_lt(a, c),
{
    lemma_bytes_lt_irrefl(a);
    lemma_bytes_lt_total(a, b);
    if bytes_lt(a, b) && bytes_lt(b, c) {
        lemma_bytes_lt_trans(a, b, c);
    }
}

proof fn lemma_ids_lt_irrefl(x: Seq<Seq<u8>>)
    ensures
        !ids_lt(x, x),
    decreases x.len(),
{
    if x.len() > 0 {
        lemma_ids_lt_irrefl(x.drop_first());
    }
}

proof fn lemma_ids_lt_total(x: Seq<Seq<u8>>, y: Seq<Seq<u8>>)
    ensures
        x != y ==> ids_lt(x, y) || ids_lt(y, x),
        !(ids_lt(x, y) && ids_lt(y, x)),
    decreases x.len(),
{
    if x.len() > 0 && y.len() > 0 {
        lemma_ids_lt_total(x.drop_first(), y.drop_first());
        lemma_ident_lt(x[0], y[0], x[0]);
        if x[0] == y[0] && x != y {
            assert(x =~= seq![x[0]] + x.drop_first());
            assert(y =~= seq![y[0]] + y.drop_first());
        }
    } else if x.len() == 0 && y.len() == 0 {
        assert(x =~= y);
    }
}

proof fn lemma_ids_lt_trans(x: Seq<Seq<u8>>, y: Seq<Seq<u8>>, z: Seq<Seq<u8>>)
    requires
        ids_lt(x, y),
        ids_lt(y, z),
    ensures
        ids_lt(x, z),
    decreases x.len(),
{
    if x.len() > 0 && y.len() > 0 && z.len() > 0 {
        lemma_ident_lt(x[0], y[0], z[0]);
        lemma_ident_lt(y[0], z[0], x[0]);
        lemma_ident_lt(x[0], z[0], y[0]);
        if x[0] == y[0] && y[0] == z[0] {
            lemma_ids_lt_trans(x.drop_first(), y.drop_first(), z.drop_first());
        }
    }
}

proof fn lemma_ids_lt(x: Seq<Seq<u8>>, y: Seq<Seq<u8>>, z: Seq<Seq<u8>>)
    ensures
        !ids_lt(x, x),
        x != y ==> ids_lt(x, y) || ids_lt(y, x),
        !(ids_lt(x, y) && ids_lt(y, x)),
        ids_lt(x, y) && ids_lt(y, z) ==> ids_lt(x, z),
{
    lemma_ids_lt_irrefl(x);
    lemma_ids_lt_total(x, y);
    if ids_lt(x, y) && ids_lt(y, z) {
        lemma_ids_lt_trans(x, y, z);
    }
}

proof fn lemma_pre_ids_injective(a: Seq<u8>, b: Seq<u8>)
    requires
        a.len() > 0,
        b.len() > 0,
        a != b,
    ensures
        pre_ids(a) != pre_ids(b),
{
    lemma_split_join(a, ID_SEP);
    lemma_split_join(b, ID_SEP);
}

/// Joining the pieces back with the separator gives the text again.
pub open spec fn join_on(ps: Seq<Seq<u8>>, sep: u8) -> Seq<u8>
    decreases ps.len(),
{
    if ps.len() <= 1 {
        if ps.len() == 0 {
            Seq::empty()
        } else {
            ps[0]
        }
    } else {
        join_on(ps.drop_last(), sep) + seq![sep] + ps.last()
    }
}

proof fn lemma_split_join(p: Seq<u8>, sep: u8)
    ensures
        split_on(p, sep).len() >= 1,
        join_on(split_on(p, sep), sep) == p,
    decreases p.len(),
{
    if p.len() > 0 {
        let init = p.drop_last();
        lemma_split_join(init, sep);
        let prev = split_on(init, sep);
        if p.last() == sep {
            let np = prev.push(Seq::empty());
            assert(np.drop_last() =~= prev);
            assert(join_on(np, sep) =~= p);
        } else {
            let np = prev.update(prev.len() - 1, prev.last().push(p.last()));
            assert(p =~= init.push(p.last()));
            assert(np.last() == prev.last().push(p.last()));
            if prev.len() == 1 {
                assert(np[0] =~= p);
            } else {
                assert(np.drop_last() =~= prev.drop_last());
                assert(join_on(prev, sep) == join_on(prev.drop_last(), sep) + seq![sep]
                    + prev.last());
                assert(join_on(np, sep) =~= p);
            }
        }
    }
}

/// Precedence on parsed versions is a strict total order up to equal keys.
pub proof fn lemma_key_order(a: (u64, u64, u64, Seq<u8>), b: (u64, u64, u64, Seq<u8>), c: (
    u64,
    u64,
    u64,
    Seq<u8>,
))
    ensures
        !key_lt(a, a),
        a != b ==> key_lt(a, b) || key_lt(b, a),
        !(key_lt(a, b) && key_lt(b, a)),
        key_lt(a, b) && key_lt(b, c) ==> key_lt(a, c),
{
    lemma_ids_lt(pre_ids(a.3), pre_ids(b.3), pre_ids(c.3));
    lemma_ids_lt(pre_ids(b.3), pre_ids(a.3), pre_ids(c.3));
    if a.3.len() > 0 && b.3.len() > 0 && a.3 != b.3 {
        lemma_pre_ids_injective(a.3, b.3);
    }
    if a.3.len() == 0 && b.3.len() == 0 {
        assert(a.3 =~= b.3);
    }
}

// ---- executable comparison ----

pub open spec fn views(v: Seq<Vec<u8>>) -> Seq<Seq<u8>> {
    v.map_values(|x: Vec<u8>| x@)
}

/// Splits `p` at each `sep`.
pub fn split_bytes(p: &[u8], sep: u8) -> (r: Vec<Vec<u8>>)
    ensures
        views(r@) == split_on(p@, sep),
{
    let mut done: Vec<Vec<u8>> = Vec::new();
    let mut cur: Vec<u8> = Vec::new();
    let mut i: usize = 0;
    proof {
        assert(p@.subrange(0, 0) =~= Seq::<u8>::empty());
        assert(views(done@).push(cur@) =~= split_on(p@.subrange(0, 0), sep));
    }
    while i < p.len()
        invariant
            0 <= i <= p.len(),
            views(done@).push(cur@) == split_on(p@.subrange(0, i as int), sep),
        decreases p.len() - i,
    {
        let ghost pre = p@.subrange(0, i as int);
        let ghost next = p@.subrange(0, i + 1);
        assert(next.drop_last() =~= pre);
        assert(next.last() == p@[i as int]);
        let b = p[i];
        if b == sep {
            let piece = cur;
            cur = Vec::new();
            done.push(piece);
            assert(views(done@) =~= split_on(pre, sep));
            assert(views(done@).push(cur@) =~= split_on(next, sep));
        } else {
            cur.push(b);
            assert(views(done@).push(cur@) =~= split_on(next, sep));
        }
        i = i + 1;
    }
    assert(p@.subrange(0, p.len() as int) =~= p@);
    done.push(cur);
    done
}

pub fn bytes_less(a: &Vec<u8>, b: &Vec<u8>) -> (r: bool)
    ensures
        r == bytes_lt(a@, b@),
{
    let mut i: usize = 0;
    assert(a@.subrange(0, a.len() as int) =~= a@);
    assert(b@.subrange(0, b.len() as int) =~= b@);
    while i < a.len() && i < b.len() && a[i] == b[i]
        invariant
            0 <= i <= a.len(),
            i <= b.len(),
            bytes_lt(a@, b@) == bytes_lt(a@.subrange(i as int, a.len() as int), b@.subrange(i as int, b.len() as int)),
        decreases a.len() - i,
    {
        let ghost sa = a@.subrange(i as int, a.len() as int);
        let ghost sb = b@.subrange(i as int, b.len() as int);
        assert(sa.drop_first() =~= a@.subrange(i + 1, a.len() as int));
        assert(sb.drop_first() =~= b@.subrange(i + 1, b.len() as int));
        i = i + 1;
    }
    if i == a.len() {
        i < b.len()
    } else if i == b.len() {
        false
    } else {
        a[i] < b[i]
    }
}

fn numeric(a: &Vec<u8>) -> (r: bool)
    ensures
        r == is_numeric(a@),
{
    let mut i: usize = 0;
    while i < a.len()
        invariant
            0 <= i <= a.len(),
            forall|k: int| 0 <= k < i ==> is_digit(#[trigger] a@[k]),
        decreases a.len() - i,
    {
        if a[i] < 48u8 || a[i] > 57u8 {
            return false;
        }
        i = i + 1;
    }
    true
}

fn ident_less(a: &Vec<u8>, b: &Vec<u8>) -> (r: bool)
    ensures
        r == ident_lt(a@, b@),
{
    let na = numeric(a);
    let nb = numeric(b);
    if na && nb {
        a.len() < b.len() || (a.len() == b.len() && bytes_less(a, b))
    } else if na {
        true
    } else if nb {
        false
    } else {
        bytes_less(a, b)
    }
}

pub fn bytes_equal(a: &Vec<u8>, b: &Vec<u8>) -> (r: bool)
    ensures
        r == (a@ == b@),
{
    if a.len() != b.len() {
        return false;
    }
    let mut i: usize = 0;
    while i < a.len()
        invariant
            0 <= i <= a.len(),
            a.len() == b.len(),
            forall|k: int| 0 <= k < i ==> a@[k] == b@[k],
        decreases a.len() - i,
    {
        if a[i] != b[i] {
            return false;
        }
        i = i + 1;
    }
    assert(a@ =~= b@);
    true
}

fn ids_less(x: &Vec<Vec<u8>>, y: &Vec<Vec<u8>>) -> (r: bool)
    ensures
        r == ids_lt(views(x@), views(y@)),
{
    let ghost vx = views(x@);
    let ghost vy = views(y@);
    let mut i: usize = 0;
    assert(vx.subrange(0, vx.len() as int) =~= vx);
    assert(vy.subrange(0, vy.len() as int) =~= vy);
    while i < x.len() && i < y.len() && bytes_equal(&x[i], &y[i])
        invariant
            0 <= i <= x.len(),
            i <= y.len(),
            vx == views(x@),
            vy == views(y@),
            ids_lt(vx, vy) == ids_lt(vx.subrange(i as int, vx.len() as int), vy.subrange(i as int, vy.len() as int)),
        decreases x.len() - i,
    {
        let ghost sx = vx.subrange(i as int, vx.len() as int);
        let ghost sy = vy.subrange(i as int, vy.len() as int);
        assert(sx[0] == vx[i as int]);
        assert(sy[0] == vy[i as int]);
        assert(sx.drop_first() =~= vx.subrange(i + 1, vx.len() as int));
        assert(sy.drop_first() =~= vy.subrange(i + 1, vy.len() as int));
        i = i + 1;
    }
    let ghost sx = vx.subrange(i as int, vx.len() as int);
    let ghost sy = vy.subrange(i as int, vy.len() as int);
    if i == y.len() {
        false
    } else if i == x.len() {
        true
    } else {
        assert(sx[0] == vx[i as int]);
        assert(sy[0] == vy[i as int]);
        ident_less(&x[i], &y[i])
    }
}

fn pre_less(a: &Vec<u8>, b: &Vec<u8>) -> (r: bool)
    ensures
        r == pre_lt(a@, b@),
{
    if a.len() == 0 {
        false
    } else if b.len() == 0 {
        true
    } else {
        let x = split_bytes(a.as_slice(), ID_SEP);
        let y = split_bytes(b.as_slice(), ID_SEP);
        ids_less(&x, &y)
    }
}

// ---- calls into semver ----

/// Relies on `semver::Version::parse`: `None` where it refuses the text, else
/// the parsed version with its numbers and pre-release part.
#[verifier::external_body]
fn parse_semver(s: &str) -> (r: Option<(u64, u64, u64, Vec<u8>, semver::Version)>)
    ensures
        r is None <==> parsed_version(s@) is None,
        r matches Some(t) ==> parsed_version(s@) == Some((t.0, t.1, t.2, t.3@)),
{
    match semver::Version::parse(s) {
        Ok(v) => Some((v.major, v.minor, v.patch, v.pre.as_str().as_bytes().to_vec(), v)),
        Err(_) => None,
    }
}

/// Relies on `semver::VersionReq::parse`: `None` where it refuses the text.
#[verifier::external_body]
fn parse_req(s: &str) -> (r: Option<semver::VersionReq>)
    ensures
        r is Some <==> range_parses(s@),
{
    semver::VersionReq::parse(s).ok()
}

/// Relies on `semver::VersionReq::matches`. Both values hold what the parse
/// calls above made of the texts kept beside them: the fields are private
/// and only those calls fill them.
#[verifier::external_body]
fn req_matches(range: &VersionRange, version: &ParsedVersion) -> (r: bool)
    ensures
        r == range_admits(range.text@, version.text@),
{
    range.req.matches(&version.parsed)
}

/// A version range, with the text it was read from.
pub struct VersionRange {
    text: String,
    req: semver::VersionReq,
}

impl View for VersionRange {
    type V = Seq<char>;

    closed spec fn view(&self) -> Seq<char> {
        self.text@
    }
}

impl VersionRange {
    /// Reads a range such as `^1.2.0`; `None` where semver refuses it.
    pub fn parse(text: &str) -> (r: Option<VersionRange>)
        ensures
            r is Some <==> range_parses(text@),
            r matches Some(range) ==> range@ == text@,
    {
        match parse_req(text) {
            Some(req) => Some(VersionRange { text: text.to_owned(), req }),
            None => None,
        }
    }

}

/// The parts of a version that decide its precedence: the major, minor and
/// patch numbers, and the pre-release part as bytes (empty for a release).
pub struct VersionKey {
    pub major: u64,
    pub minor: u64,
    pub patch: u64,
    pub pre: Vec<u8>,
}

impl View for VersionKey {
    type V = (u64, u64, u64, Seq<u8>);

    open spec fn view(&self) -> (u64, u64, u64, Seq<u8>) {
        (self.major, self.minor, self.patch, self.pre@)
    }
}

impl VersionKey {
    /// Whether this version is below `other` in precedence.
    pub fn precedes(&self, other: &VersionKey) -> (r: bool)
        ensures
            r == key_lt(self@, other@),
    {
        if self.major != other.major {
            self.major < other.major
        } else if self.minor != other.minor {
            self.minor < other.minor
        } else if self.patch != other.patch {
            self.patch < other.patch
        } else {
            pre_less(&self.pre, &other.pre)
        }
    }
}

/// The index of the greatest key, keys equal in precedence being ordered
/// by `ties`; `None` only for no keys.
pub fn greatest(keys: &Vec<VersionKey>, ties: &Vec<Vec<u8>>) -> (r: Option<usize>)
    requires
        ties@.len() == keys@.len(),
    ensures
        r is None <==> keys@.len() == 0,
        r matches Some(m) ==> m < keys@.len() && forall|j: int|
            0 <= j < keys@.len() ==> !full_lt(
                keys@[m as int]@,
                ties@[m as int]@,
                #[trigger] keys@[j]@,
                ties@[j]@,
            ),
{
    if keys.len() == 0 {
        return None;
    }
    let mut best: usize = 0;
    let mut i: usize = 1;
    proof {
        lemma_full_order(keys@[0]@, ties@[0]@, keys@[0]@, ties@[0]@, keys@[0]@, ties@[0]@);
    }
    while i < keys.len()
        invariant
            1 <= i <= keys@.len(),
            ties@.len() == keys@.len(),
            best < i,
            forall|j: int|
                0 <= j < i ==> !full_lt(keys@[best as int]@, ties@[best as int]@, #[trigger] keys@[j]@, ties@[j]@),
        decreases keys@.len() - i,
    {
        let above = keys[best].precedes(&keys[i]) || (!keys[i].precedes(&keys[best]) && bytes_less(&ties[best], &ties[i]));
        proof {
            lemma_key_order(keys@[best as int]@, keys@[i as int]@, keys@[i as int]@);
        }
        assert(above == full_lt(keys@[best as int]@, ties@[best as int]@, keys@[i as int]@, ties@[i as int]@));
        if above {
            proof {
                let b = keys@[best as int]@;
                let tb = ties@[best as int]@;
                let v = keys@[i as int]@;
                let tv = ties@[i as int]@;
                assert forall|j: int| 0 <= j < i + 1 implies !full_lt(v, tv, #[trigger] keys@[j]@, ties@[j]@) by {
                    let kj = keys@[j]@;
                    let tj = ties@[j]@;
                    lemma_full_order(kj, tj, b, tb, v, tv);
                    lemma_full_order(v, tv, kj, tj, b, tb);
                    lemma_full_order(b, tb, v, tv, kj, tj);
                }
            }
            best = i;
        } else {
            proof {
                lemma_full_order(keys@[i as int]@, ties@[i as int]@, keys@[best as int]@, ties@[best as int]@, keys@[i as int]@, ties@[i as int]@);
            }
        }
        i = i + 1;
    }
    Some(best)
}

/// A parsed version, with the text it was read from.
pub struct ParsedVersion {
    text: String,
    key: VersionKey,
    parsed: semver::Version,
}

impl View for ParsedVersion {
    type V = Seq<char>;

    closed spec fn view(&self) -> Seq<char> {
        self.text@
    }
}

impl ParsedVersion {
    pub closed spec fn key(&self) -> (u64, u64, u64, Seq<u8>) {
        self.key@
    }

    pub closed spec fn wf(&self) -> bool {
        parsed_version(self.text@) == Some(self.key())
    }

    /// Reads a version such as `1.2.0-beta.1`; `None` where semver refuses it.
    pub fn parse(text: &str) -> (r: Option<ParsedVersion>)
        ensures
            r is Some <==> parsed_version(text@) is Some,
            r matches Some(v) ==> v@ == text@ && v.wf(),
    {
        match parse_semver(text) {
            Some((major, minor, patch, pre, parsed)) => Some(
                ParsedVersion {
                    text: text.to_owned(),
                    key: VersionKey { major, minor, patch, pre },
                    parsed,
                },
            ),
            None => None,
        }
    }

    /// Whether this version is below `other` in precedence.
    pub fn precedes(&self, other: &ParsedVersion) -> (r: bool)
        ensures
            r == key_lt(self.key(), other.key()),
    {
        self.key.precedes(&other.key)
    }

    /// Whether `range` admits this version.
    pub fn satisfies(&self, range: &VersionRange) -> (r: bool)
        requires
            self.wf(),
        ensures
            r == admits(range@, self@),
    {
        req_matches(range, self)
    }

    /// The precedence key of this version.
    pub fn into_key(self) -> (r: VersionKey)
        ensures
            r@ == self.key(),
    {
        self.key
    }
}

pub open spec fn texts(v: Seq<String>) -> Seq<Seq<char>> {
    v.map_values(|x: String| x@)
}

fn text_bytes(s: &String) -> (r: Vec<u8>)
    ensures
        r@ == encode_utf8(s@),
{
    let b = s.as_str().as_bytes();
    let mut r: Vec<u8> = Vec::new();
    let mut i: usize = 0;
    while i < b.len()
        invariant
            0 <= i <= b@.len(),
            r@ == b@.subrange(0, i as int),
        decreases b@.len() - i,
    {
        r.push(b[i]);
        assert(r@ =~= b@.subrange(0, i + 1));
        i = i + 1;
    }
    assert(b@.subrange(0, b@.len() as int) =~= b@);
    r
}

/// The greatest version among `versions` that `range` admits, under
/// semantic-version precedence; `None` exactly when `range` admits none of
/// them. Texts that are no version are passed over.
pub fn get_max_compatible_version(range: &VersionRange, versions: &Vec<String>) -> (r: Option<String>)
    ensures
        r is None <==> forall|j: int| 0 <= j < versions.len() ==> !admits(range@, #[trigger] versions@[j]@),
        r matches Some(best) ==> is_max_admitted(range@, texts(versions@), best@),
{
    let ghost vs = texts(versions@);
    let mut keys: Vec<VersionKey> = Vec::new();
    let mut ties: Vec<Vec<u8>> = Vec::new();
    let mut from: Vec<usize> = Vec::new();
    let mut i: usize = 0;
    while i < versions.len()
        invariant
            0 <= i <= versions.len(),
            vs == texts(versions@),
            keys@.len() == from@.len(),
            ties@.len() == from@.len(),
            forall|m: int| 0 <= m < from@.len() ==> ties@[m]@ == encode_utf8(vs[#[trigger] from@[m] as int]),
            forall|m: int| 0 <= m < from@.len() ==> #[trigger] from@[m] < i,
            forall|m: int| 0 <= m < from@.len() ==> admits(range@, vs[#[trigger] from@[m] as int]),
            forall|m: int|
                0 <= m < from@.len() ==> parsed_version(vs[#[trigger] from@[m] as int]) == Some(
                    keys@[m]@,
                ),
            forall|j: int| 0 <= j < i && admits(range@, #[trigger] vs[j]) ==> exists|m: int|
                0 <= m < from@.len() && from@[m] == j,
        decreases versions.len() - i,
    {
        assert(vs[i as int] == versions@[i as int]@);
        match ParsedVersion::parse(versions[i].as_str()) {
            Some(v) => {
                if v.satisfies(range) {
                    let ghost before = from@;
                    let ghost kb = keys@;
                    let ghost tb = ties@;
                    let ghost vk = v.key();
                    assert(v@ == vs[i as int]);
                    assert(parsed_version(vs[i as int]) == Some(vk));
                    assert(admits(range@, vs[i as int]));
                    keys.push(v.into_key());
                    ties.push(text_bytes(&versions[i]));
                    from.push(i);
                    assert forall|m: int| 0 <= m < from@.len() implies {
                        &&& #[trigger] from@[m] < i + 1
                        &&& admits(range@, vs[from@[m] as int])
                        &&& parsed_version(vs[from@[m] as int]) == Some(keys@[m]@)
                        &&& ties@[m]@ == encode_utf8(vs[from@[m] as int])
                    } by {
                        if m < before.len() {
                            assert(keys@[m] == kb[m]);
                            assert(ties@[m] == tb[m]);
                            assert(tb[m]@ == encode_utf8(vs[before[m] as int]));
                            assert(from@[m] == before[m]);
                            assert(parsed_version(vs[before[m] as int]) == Some(kb[m]@));
                        } else {
                            assert(keys@[m]@ == vk);
                            assert(from@[m] == i);
                        }
                    }
                    assert forall|j: int| 0 <= j < i + 1 && admits(range@, #[trigger] vs[j]) implies exists|m: int|
                        0 <= m < from@.len() && from@[m] == j by {
                        if j < i {
                            let m = choose|m: int| 0 <= m < before.len() && before[m] == j;
                            assert(from@[m] == j);
                        } else {
                            assert(from@[from@.len() - 1] == j);
                        }
                    }
                }
            },
            None => {},
        }
        i = i + 1;
    }
    match greatest(&keys, &ties) {
        None => {
            proof {
                assert forall|j: int| 0 <= j < versions.len() implies !admits(range@, #[trigger] versions@[j]@) by {
                    assert(vs[j] == versions@[j]@);
                }
            }
            None
        },
        Some(m) => {
            assert(parsed_version(vs[from@[m as int] as int]) == Some(keys@[m as int]@));
            let k = from[m];
            proof {
                let best = vs[k as int];
                assert(vs[k as int] == versions@[k as int]@);
                assert(ties@[m as int]@ == encode_utf8(best));
                assert forall|j: int| 0 <= j < vs.len() && admits(range@, #[trigger] vs[j]) implies !version_lt(best, vs[j])
                    && (parsed_version(vs[j]) == parsed_version(best) ==> !bytes_lt(encode_utf8(best), encode_utf8(vs[j]))) by {
                    let mm = choose|mm: int| 0 <= mm < from@.len() && from@[mm] == j;
                    assert(parsed_version(vs[from@[mm] as int]) == Some(keys@[mm]@));
                    assert(ties@[mm]@ == encode_utf8(vs[from@[mm] as int]));
                    assert(!full_lt(keys@[m as int]@, ties@[m as int]@, keys@[mm]@, ties@[mm]@));
                }
            }
            Some(versions[k].clone())
        },
    }
}

/// The version pick does not depend on the order of the versions: there is
/// at most one greatest admitted text.
pub proof fn lemma_pick_unique(range: Seq<char>, vs: Seq<Seq<char>>, a: Seq<char>, b: Seq<char>)
    requires
        is_max_admitted(range, vs, a),
        is_max_admitted(range, vs, b),
    ensures
        a == b,
{
    let i = choose|i: int| 0 <= i < vs.len() && vs[i] == a;
    let j = choose|j: int| 0 <= j < vs.len() && vs[j] == b;
    assert(admits(range, vs[i]) && admits(range, vs[j]));
    let ka = parsed_version(a).unwrap();
    let kb = parsed_version(b).unwrap();
    lemma_key_order(ka, kb, ka);
    assert(ka == kb);
    lemma_bytes_lt_total(encode_utf8(a), encode_utf8(b));
    vstd::utf8::encode_utf8_decode_utf8(a);
    vstd::utf8::encode_utf8_decode_utf8(b);
}

/// Version pick is monotone: where `sup` holds every version text of `sub`,
/// the greatest admitted version of `sup` is not below that of `sub`.
pub proof fn lemma_pick_monotone(
    range: Seq<char>,
    sub: Seq<Seq<char>>,
    sup: Seq<Seq<char>>,
    picked_sub: Seq<char>,
    picked_sup: Seq<char>,
)
    requires
        forall|i: int| 0 <= i < sub.len() ==> exists|j: int| 0 <= j < sup.len() && sup[j] == #[trigger] sub[i],
        is_max_admitted(range, sub, picked_sub),
        is_max_admitted(range, sup, picked_sup),
    ensures
        !version_lt(picked_sup, picked_sub),
{
    let i = choose|i: int| 0 <= i < sub.len() && sub[i] == picked_sub;
    let j = choose|j: int| 0 <= j < sup.len() && sup[j] == #[trigger] sub[i];
    assert(admits(range, sup[j]));
}

} // verus!
