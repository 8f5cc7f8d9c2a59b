//! Credits for the assets a project uses: grouping asset descriptions by
//! type, sorting them by name, and the Markdown and BBCode texts that list
//! them.
use vstd::prelude::*;

use crate::text::{append_str, collect_chars, push_char};

verus! {

/// `a` comes strictly before `b` in lexicographic order of code points,
/// which is the order in which `String`s compare.
pub open spec fn seq_lt(a: Seq<char>, b: Seq<char>) -> bool
    decreases a.len(),
{
    if a.len() == 0 {
        b.len() > 0
    } else if b.len() == 0 {
        false
    } else if a[0] != b[0] {
        (a[0] as int) < (b[0] as int)
    } else {
        seq_lt(a.drop_first(), b.drop_first())
    }
}

/// `a` comes no later than `b` in lexicographic order.
pub open spec fn seq_le(a: Seq<char>, b: Seq<char>) -> bool {
    !seq_lt(b, a)
}

/// Lexicographic order is irreflexive and total.
pub proof fn lemma_seq_lt_trichotomy(a: Seq<char>, b: Seq<char>)
    ensures
        !seq_lt(a, a),
        a != b ==> (seq_lt(a, b) || seq_lt(b, a)),
        !(seq_lt(a, b) && seq_lt(b, a)),
    decreases a.len(),
{
    if a.len() > 0 && b.len() > 0 {
        if a[0] == b[0] {
            lemma_seq_lt_trichotomy(a.drop_first(), b.drop_first());
            if a != b {
                assert(a.drop_first() != b.drop_first()) by {
                    if a.drop_first() == b.drop_first() {
                        assert(a =~= seq![a[0]] + a.drop_first());
                        assert(b =~= seq![b[0]] + b.drop_first());
                    }
                }
            }
        } else {
            assert((a[0] as int) != (b[0] as int));
        }
    } else if a.len() > 0 || b.len() > 0 {
    } else {
        assert(a =~= b);
    }
    if a.len() > 0 {
        lemma_seq_lt_trichotomy(a.drop_first(), a.drop_first());
    }
}

/// Lexicographic order is transitive.
pub proof fn lemma_seq_lt_transitive(a: Seq<char>, b: Seq<char>, c: Seq<char>)
    requires
        seq_lt(a, b),
        seq_lt(b, c),
    ensures
        seq_lt(a, c),
    decreases a.len(),
{
    if a.len() > 0 && b.len() > 0 && c.len() > 0 {
        if a[0] == b[0] && b[0] == c[0] {
            lemma_seq_lt_transitive(a.drop_first(), b.drop_first(), c.drop_first());
        }
    }
}

/// Whether `a` comes strictly before `b` in lexicographic order.
pub fn str_lt(a: &String, b: &String) -> (r: bool)
    ensures
        r == seq_lt(a@, b@),
{
    let x = collect_chars(a.as_str());
    let y = collect_chars(b.as_str());
    let mut i: usize = 0;
    assert(a@.skip(0) =~= a@);
    assert(b@.skip(0) =~= b@);
    while i < x.len() && i < y.len() && x[i] == y[i]
        invariant
            x@ == a@,
            y@ == b@,
            i <= x@.len(),
            i <= y@.len(),
            x@.take(i as int) == y@.take(i as int),
            seq_lt(a@, b@) == seq_lt(a@.skip(i as int), b@.skip(i as int)),
        decreases x@.len() - i,
    {
        proof {
            let xs = a@.skip(i as int);
            let ys = b@.skip(i as int);
            assert(xs.drop_first() =~= a@.skip(i + 1));
            assert(ys.drop_first() =~= b@.skip(i + 1));
            assert(x@.take(i + 1) =~= x@.take(i as int).push(x@[i as int]));
            assert(y@.take(i + 1) =~= y@.take(i as int).push(y@[i as int]));
        }
        i = i + 1;
    }
    let xs = Ghost(a@.skip(i as int));
    let ys = Ghost(b@.skip(i as int));
    if i == x.len() {
        assert(xs@.len() == 0);
        i < y.len()
    } else if i == y.len() {
        assert(ys@.len() == 0);
        false
    } else {
        assert(xs@[0] == x@[i as int]);
        assert(ys@[0] == y@[i as int]);
        x[i] < y[i]
    }
}

} // verus!

verus! {

/// What the credits say of one asset.
#[derive(Debug)]
pub struct AssetInfo {
    pub name: String,
    pub author: Option<String>,
    pub source: String,
    pub license: String,
    pub license_source: String,
    pub ty: String,
    pub custom_attribution: Option<String>,
}

/// An asset description as plain text.
pub struct AssetInfoView {
    pub name: Seq<char>,
    pub author: Option<Seq<char>>,
    pub source: Seq<char>,
    pub license: Seq<char>,
    pub license_source: Seq<char>,
    pub ty: Seq<char>,
    pub custom_attribution: Option<Seq<char>>,
}

/// The text of an optional string.
pub open spec fn opt_text(o: Option<String>) -> Option<Seq<char>> {
    match o {
        Some(s) => Some(s@),
        None => None,
    }
}

impl View for AssetInfo {
    type V = AssetInfoView;

    open spec fn view(&self) -> AssetInfoView {
        AssetInfoView {
            name: self.name@,
            author: opt_text(self.author),
            source: self.source@,
            license: self.license@,
            license_source: self.license_source@,
            ty: self.ty@,
            custom_attribution: opt_text(self.custom_attribution),
        }
    }
}

/// The views of a list of assets.
pub open spec fn asset_views(s: Seq<AssetInfo>) -> Seq<AssetInfoView> {
    s.map_values(|a: AssetInfo| a@)
}

/// `a` comes strictly before `b` when ordered by type, then by name.
pub open spec fn asset_before(a: AssetInfoView, b: AssetInfoView) -> bool {
    seq_lt(a.ty, b.ty) || (a.ty == b.ty && seq_lt(a.name, b.name))
}

/// No asset comes after a later one in order of type, then name.
pub open spec fn sorted_by_type_and_name(s: Seq<AssetInfoView>) -> bool {
    forall|i: int, j: int| 0 <= i < j < s.len() ==> !asset_before(s[j], s[i])
}

proof fn lemma_before_asymmetric(a: AssetInfoView, b: AssetInfoView)
    ensures
        !(asset_before(a, b) && asset_before(b, a)),
{
    lemma_seq_lt_trichotomy(a.ty, b.ty);
    lemma_seq_lt_trichotomy(a.name, b.name);
}

proof fn lemma_before_then_not_after(a: AssetInfoView, b: AssetInfoView, c: AssetInfoView)
    requires
        asset_before(a, b),
        !asset_before(c, b),
    ensures
        asset_before(a, c),
{
    lemma_seq_lt_trichotomy(b.ty, c.ty);
    lemma_seq_lt_trichotomy(b.name, c.name);
    if seq_lt(b.ty, c.ty) {
        if seq_lt(a.ty, b.ty) {
            lemma_seq_lt_transitive(a.ty, b.ty, c.ty);
        }
    } else {
        assert(b.ty == c.ty);
        if a.ty == b.ty {
            if seq_lt(b.name, c.name) {
                lemma_seq_lt_transitive(a.name, b.name, c.name);
            }
        }
    }
}

/// Whether `a` comes strictly before `b` by type, then name.
fn asset_lt(a: &AssetInfo, b: &AssetInfo) -> (r: bool)
    ensures
        r == asset_before(a@, b@),
{
    if str_lt(&a.ty, &b.ty) {
        true
    } else if a.ty == b.ty {
        str_lt(&a.name, &b.name)
    } else {
        false
    }
}

/// The assets ordered by type, then name.
fn sort_by_type_and_name(assets: Vec<AssetInfo>) -> (sorted: Vec<AssetInfo>)
    ensures
        asset_views(sorted@).to_multiset() == asset_views(assets@).to_multiset(),
        sorted_by_type_and_name(asset_views(sorted@)),
{
    broadcast use vstd::seq_lib::group_to_multiset_ensures;

    let ghost all = asset_views(assets@);
    let mut input = assets;
    let mut sorted: Vec<AssetInfo> = Vec::new();
    proof {
        assert(asset_views(sorted@) =~= Seq::<AssetInfoView>::empty());
        assert(asset_views(input@) =~= all);
    }
    while input.len() > 0
        invariant
            asset_views(sorted@).to_multiset().add(asset_views(input@).to_multiset())
                == all.to_multiset(),
            sorted_by_type_and_name(asset_views(sorted@)),
        decreases input@.len(),
    {
        let ghost before_input = input@;
        let x = input.pop().unwrap();
        proof {
            assert(asset_views(before_input) =~= asset_views(input@).push(x@));
        }
        let ghost sv = asset_views(sorted@);
        let mut p: usize = 0;
        while p < sorted.len() && !asset_lt(&x, &sorted[p])
            invariant
                p <= sorted@.len(),
                sv == asset_views(sorted@),
                forall|q: int| 0 <= q < p ==> !asset_before(x@, #[trigger] sv[q]),
            decreases sorted@.len() - p,
        {
            p = p + 1;
        }
        proof {
            assert(p < sv.len() ==> asset_before(x@, sv[p as int]));
        }
        sorted.insert(p, x);
        proof {
            assert(asset_views(sorted@) =~= sv.insert(p as int, x@));
            let nv = asset_views(sorted@);
            assert forall|i: int, j: int| 0 <= i < j < nv.len() implies !asset_before(
                nv[j],
                nv[i],
            ) by {
                if j < p {
                    assert(nv[i] == sv[i] && nv[j] == sv[j]);
                } else if j == p {
                    assert(nv[i] == sv[i]);
                } else if i < p {
                    assert(nv[i] == sv[i] && nv[j] == sv[j - 1]);
                } else if i == p {
                    assert(nv[j] == sv[j - 1]);
                    if j - 1 > p {
                        assert(!asset_before(sv[j - 1], sv[p as int]));
                    } else {
                        lemma_before_asymmetric(sv[p as int], sv[p as int]);
                    }
                    lemma_before_then_not_after(x@, sv[p as int], sv[j - 1]);
                    lemma_before_asymmetric(x@, sv[j - 1]);
                } else {
                    assert(nv[i] == sv[i - 1] && nv[j] == sv[j - 1]);
                }
            }
            vstd::seq_lib::to_multiset_insert(sv, p as int, x@);
            assert(asset_views(sorted@).to_multiset() == sv.to_multiset().insert(x@));
            let iv = asset_views(input@);
            iv.to_multiset_ensures();
            assert(iv.push(x@).to_multiset() == iv.to_multiset().insert(x@));
            assert(sv.to_multiset().insert(x@).add(iv.to_multiset()) =~= sv.to_multiset().add(
                iv.to_multiset().insert(x@),
            )) by {
                broadcast use vstd::multiset::group_multiset_axioms;

            }
        }
    }
    proof {
        assert(asset_views(input@) =~= Seq::<AssetInfoView>::empty());
    }
    sorted
}

} // verus!

verus! {

/// The type of each group.
pub open spec fn group_keys(gs: Seq<(String, Vec<AssetInfo>)>) -> Seq<Seq<char>> {
    gs.map_values(|g: (String, Vec<AssetInfo>)| g.0@)
}

/// The assets of each group.
pub open spec fn group_members(gs: Seq<(String, Vec<AssetInfo>)>) -> Seq<Seq<AssetInfoView>> {
    gs.map_values(|g: (String, Vec<AssetInfo>)| asset_views(g.1@))
}

/// Groups of assets by type: the types strictly ascending (so each occurs
/// once), every group non-empty, every asset of a group of the group's
/// type, and the assets of a group in ascending order of name.
pub open spec fn groups_by_type(keys: Seq<Seq<char>>, members: Seq<Seq<AssetInfoView>>) -> bool {
    &&& keys.len() == members.len()
    &&& forall|i: int, j: int| 0 <= i < j < keys.len() ==> seq_lt(keys[i], keys[j])
    &&& forall|i: int| 0 <= i < members.len() ==> (#[trigger] members[i]).len() > 0
    &&& forall|i: int, k: int|
        0 <= i < members.len() && 0 <= k < members[i].len() ==> (#[trigger] members[i][k]).ty
            == keys[i]
    &&& forall|i: int, a: int, b: int|
        0 <= i < members.len() && 0 <= a < b < members[i].len() ==> seq_le(
            (#[trigger] members[i][a]).name,
            (#[trigger] members[i][b]).name,
        )
}

proof fn lemma_empty_to_multiset()
    ensures
        Seq::<AssetInfoView>::empty().to_multiset() =~= vstd::multiset::Multiset::empty(),
{
    let e = Seq::<AssetInfoView>::empty();
    e.to_multiset_ensures();
    vstd::multiset::lemma_multiset_empty_len(e.to_multiset());
}

proof fn lemma_flatten_extend_last(m: Seq<Seq<AssetInfoView>>, v: AssetInfoView)
    requires
        m.len() > 0,
    ensures
        m.drop_last().push(m.last().push(v)).flatten() == m.flatten().push(v),
{
    broadcast use vstd::seq::Seq::lemma_flatten_push;

    assert(m.drop_last().push(m.last()) =~= m);
    assert(m.drop_last().push(m.last()).flatten() == m.drop_last().flatten() + m.last());
    assert(m.drop_last().push(m.last().push(v)).flatten() == m.drop_last().flatten()
        + m.last().push(v));
    assert(m.drop_last().flatten() + m.last().push(v) =~= (m.drop_last().flatten()
        + m.last()).push(v));
}

/// The assets grouped by type, the types in ascending order and, within a
/// group, the assets in ascending order of name (in an unspecified order
/// among equal names).
pub fn type_sorted_assets(assets: Vec<AssetInfo>) -> (groups: Vec<(String, Vec<AssetInfo>)>)
    ensures
        groups_by_type(group_keys(groups@), group_members(groups@)),
        group_members(groups@).flatten().to_multiset() == asset_views(assets@).to_multiset(),
{
    broadcast use vstd::seq::Seq::lemma_flatten_push;

    let ghost all = asset_views(assets@);
    let mut rest = sort_by_type_and_name(assets);
    let mut groups: Vec<(String, Vec<AssetInfo>)> = Vec::new();
    proof {
        assert(group_members(groups@) =~= Seq::<Seq<AssetInfoView>>::empty());
        assert(group_keys(groups@) =~= Seq::<Seq<char>>::empty());
        assert(Seq::<Seq<AssetInfoView>>::empty().flatten() =~= Seq::<AssetInfoView>::empty());
        lemma_empty_to_multiset();
        assert(vstd::multiset::Multiset::<AssetInfoView>::empty().add(asset_views(rest@).to_multiset())
            =~= asset_views(rest@).to_multiset()) by {
            broadcast use vstd::multiset::group_multiset_axioms;

        }
    }
    while rest.len() > 0
        invariant
            groups_by_type(group_keys(groups@), group_members(groups@)),
            groups@.len() > 0 ==> forall|j: int, k: int|
                0 <= j < asset_views(rest@).len() && 0 <= k < group_members(groups@).last().len()
                    ==> !asset_before(
                    #[trigger] asset_views(rest@)[j],
                    #[trigger] group_members(groups@).last()[k],
                ),
            sorted_by_type_and_name(asset_views(rest@)),
            group_members(groups@).flatten().to_multiset().add(asset_views(rest@).to_multiset())
                == all.to_multiset(),
        decreases rest@.len(),
    {
        let ghost r0 = asset_views(rest@);
        let ghost k0 = group_keys(groups@);
        let ghost m0 = group_members(groups@);
        let x = rest.remove(0);
        proof {
            assert(r0[0] == x@);
            assert(asset_views(rest@) =~= r0.drop_first());
            assert(r0 =~= seq![x@] + r0.drop_first());
        }
        let n = groups.len();
        let same = n > 0 && groups[n - 1].0 == x.ty;
        if same {
            let ghost g0 = groups@;
            let (key, mut members) = groups.pop().unwrap();
            let ghost old_members = asset_views(members@);
            proof {
                assert((key, members) == g0.last());
                assert(groups@ == g0.drop_last());
            }
            members.push(x);
            proof {
                assert(asset_views(members@) =~= old_members.push(x@));
            }
            groups.push((key, members));
            proof {
                assert(groups@ == g0.drop_last().push((key, members)));
                assert(m0.last() == asset_views(g0.last().1@));
                assert(group_members(groups@) =~= m0.drop_last().push(m0.last().push(x@)));
                assert(group_keys(groups@) =~= k0);
                assert(old_members == m0.last());
                lemma_flatten_extend_last(m0, x@);
                let m1 = group_members(groups@);
                assert forall|i: int, a: int, b: int|
                    0 <= i < m1.len() && 0 <= a < b < m1[i].len() implies seq_le(
                    (#[trigger] m1[i][a]).name,
                    (#[trigger] m1[i][b]).name,
                ) by {
                    if i < n - 1 {
                        assert(m1[i] == m0[i]);
                    } else if b < m0.last().len() {
                        assert(m1[i][a] == m0.last()[a] && m1[i][b] == m0.last()[b]);
                    } else {
                        assert(m1[i][a] == m0.last()[a]);
                        assert(m1[i][b] == x@);
                        assert(!asset_before(r0[0], m0.last()[a]));
                        assert(m0.last()[a].ty == k0[n - 1]);
                    }
                }
                assert forall|i: int, k: int|
                    0 <= i < m1.len() && 0 <= k < m1[i].len() implies (#[trigger] m1[i][k]).ty
                    == group_keys(groups@)[i] by {
                    if i < n - 1 {
                        assert(m1[i] == m0[i]);
                    } else if k < m0.last().len() {
                        assert(m1[i][k] == m0.last()[k]);
                    }
                }
                assert forall|i: int| 0 <= i < m1.len() implies (#[trigger] m1[i]).len() > 0 by {
                    if i < n - 1 {
                        assert(m1[i] == m0[i]);
                    }
                }
                let r1 = asset_views(rest@);
                assert forall|j: int, k: int|
                    0 <= j < r1.len() && 0 <= k < m1.last().len() implies !asset_before(
                    #[trigger] r1[j],
                    #[trigger] m1.last()[k],
                ) by {
                    assert(r1[j] == r0[j + 1]);
                    if k < m0.last().len() {
                        assert(m1.last()[k] == m0.last()[k]);
                    } else {
                        assert(m1.last()[k] == r0[0]);
                    }
                }
            }
        } else {
            let key = x.ty.clone();
            let mut members: Vec<AssetInfo> = Vec::new();
            members.push(x);
            groups.push((key, members));
            proof {
                assert(asset_views(members@) =~= seq![x@]);
                assert(group_members(groups@) =~= m0.push(seq![x@]));
                assert(group_keys(groups@) =~= k0.push(x@.ty));
                m0.lemma_flatten_push(seq![x@]);
                assert(m0.flatten() + seq![x@] =~= m0.flatten().push(x@));
                let m1 = group_members(groups@);
                let k1 = group_keys(groups@);
                if n > 0 {
                    let last = m0.last();
                    assert(last.len() > 0);
                    assert(m0[n - 1][0] == last[0]);
                    assert(!asset_before(r0[0], last[0]));
                    assert(last[0].ty == k0[n - 1]);
                    lemma_seq_lt_trichotomy(k0[n - 1], x@.ty);
                    assert(seq_lt(k0[n - 1], x@.ty));
                    assert forall|i: int, j: int| 0 <= i < j < k1.len() implies seq_lt(
                        k1[i],
                        k1[j],
                    ) by {
                        if j == n {
                            if i < n - 1 {
                                lemma_seq_lt_transitive(k0[i], k0[n - 1], x@.ty);
                            }
                        } else {
                            assert(k1[i] == k0[i] && k1[j] == k0[j]);
                        }
                    }
                }
                assert forall|i: int, a: int, b: int|
                    0 <= i < m1.len() && 0 <= a < b < m1[i].len() implies seq_le(
                    (#[trigger] m1[i][a]).name,
                    (#[trigger] m1[i][b]).name,
                ) by {
                    assert(m1[i] == m0[i]);
                }
                assert forall|i: int, k: int|
                    0 <= i < m1.len() && 0 <= k < m1[i].len() implies (#[trigger] m1[i][k]).ty
                    == k1[i] by {
                    if i < n {
                        assert(m1[i] == m0[i]);
                    }
                }
                assert forall|i: int| 0 <= i < m1.len() implies (#[trigger] m1[i]).len() > 0 by {
                    if i < n {
                        assert(m1[i] == m0[i]);
                    }
                }
                let r1 = asset_views(rest@);
                assert forall|j: int, k: int|
                    0 <= j < r1.len() && 0 <= k < m1.last().len() implies !asset_before(
                    #[trigger] r1[j],
                    #[trigger] m1.last()[k],
                ) by {
                    assert(r1[j] == r0[j + 1]);
                    assert(m1.last()[k] == r0[0]);
                }
            }
        }
        proof {
            let r1 = asset_views(rest@);
            assert forall|i: int, j: int| 0 <= i < j < r1.len() implies !asset_before(
                r1[j],
                r1[i],
            ) by {
                assert(r1[i] == r0[i + 1] && r1[j] == r0[j + 1]);
            }
            let f0 = m0.flatten();
            r1.to_multiset_ensures();
            f0.to_multiset_ensures();
            assert((seq![x@] + r1).to_multiset() == seq![x@].to_multiset().add(r1.to_multiset()))
                by {
                vstd::seq_lib::lemma_multiset_commutative(seq![x@], r1);
            }
            assert(seq![x@] =~= Seq::<AssetInfoView>::empty().push(x@));
            Seq::<AssetInfoView>::empty().to_multiset_ensures();
            assert(f0.to_multiset().insert(x@).add(r1.to_multiset()) =~= f0.to_multiset().add(
                seq![x@].to_multiset().add(r1.to_multiset()),
            )) by {
                broadcast use vstd::multiset::group_multiset_axioms;

            }
        }
    }
    proof {
        assert(asset_views(rest@) =~= Seq::<AssetInfoView>::empty());
        lemma_empty_to_multiset();
        assert(group_members(groups@).flatten().to_multiset().add(
            Seq::<AssetInfoView>::empty().to_multiset(),
        ) =~= group_members(groups@).flatten().to_multiset()) by {
            broadcast use vstd::multiset::group_multiset_axioms;

        }
    }
    groups
}

} // verus!

verus! {

/// A character in ASCII upper case: `a` to `z` become `A` to `Z`, every
/// other character stays.
pub open spec fn ascii_upper(c: char) -> char {
    if 'a' <= c && c <= 'z' {
        ((c as int) - 32) as char
    } else {
        c
    }
}

/// A character in ASCII lower case: `A` to `Z` become `a` to `z`, every
/// other character stays.
pub open spec fn ascii_lower(c: char) -> char {
    if 'A' <= c && c <= 'Z' {
        ((c as int) + 32) as char
    } else {
        c
    }
}

/// A header as the credits show it: the first character in ASCII upper
/// case, the others in ASCII lower case.
pub open spec fn capitalize(s: Seq<char>) -> Seq<char> {
    Seq::new(s.len(), |i: int| if i == 0 { ascii_upper(s[i]) } else { ascii_lower(s[i]) })
}

/// `c` in ASCII upper case, as `char::to_ascii_uppercase` gives it.
fn to_ascii_upper(c: char) -> (u: char)
    ensures
        u == ascii_upper(c),
{
    if 'a' <= c && c <= 'z' {
        let b: u8 = c as u8;
        let u: u8 = b - 32;
        assert(b == c as int);
        u as char
    } else {
        c
    }
}

/// `c` in ASCII lower case, as `char::to_ascii_lowercase` gives it.
fn to_ascii_lower(c: char) -> (l: char)
    ensures
        l == ascii_lower(c),
{
    if 'A' <= c && c <= 'Z' {
        let b: u8 = c as u8;
        let l: u8 = b + 32;
        assert(b == c as int);
        l as char
    } else {
        c
    }
}

/// Appends the header `s`, capitalized, to `out`.
fn append_capitalized(out: &mut String, s: &String)
    ensures
        final(out)@ == old(out)@ + capitalize(s@),
{
    let chars = collect_chars(s.as_str());
    let mut i: usize = 0;
    while i < chars.len()
        invariant
            i <= chars@.len(),
            chars@ == s@,
            out@ == old(out)@ + capitalize(s@).take(i as int),
        decreases chars@.len() - i,
    {
        let c = if i == 0 {
            to_ascii_upper(chars[i])
        } else {
            to_ascii_lower(chars[i])
        };
        push_char(out, c);
        proof {
            assert(capitalize(s@).take(i + 1) =~= capitalize(s@).take(i as int).push(c));
        }
        i = i + 1;
    }
    assert(capitalize(s@).take(chars@.len() as int) =~= capitalize(s@));
}

/// The opening lines of the Markdown credits.
pub open spec fn markdown_header() -> Seq<char> {
    "# Credits\n"@ + "The following assets are used in this project.\n"@
        + "Huge thanks to all the creators!\n"@ + "\n\n"@
}

/// How the Markdown credits name an author.
pub open spec fn markdown_author(author: Option<Seq<char>>) -> Seq<char> {
    match author {
        Some(a) => "**"@ + a + "**"@,
        None => "*(not attributed)*"@,
    }
}

/// The Markdown line of a custom attribution, if any.
pub open spec fn markdown_custom(custom: Option<Seq<char>>) -> Seq<char> {
    match custom {
        Some(c) => "- "@ + c + "\n"@,
        None => Seq::empty(),
    }
}

/// The Markdown entry of one asset.
pub open spec fn markdown_asset(a: AssetInfoView) -> Seq<char> {
    "**"@ + a.name + "**\n"@ + ("- Author: "@ + markdown_author(a.author) + "\n"@) + (
    "- Source: **[link]("@ + a.source + ")**\n"@) + ("- License: **["@ + a.license + "]("@
        + a.license_source + ")**\n"@) + markdown_custom(a.custom_attribution) + "\n"@
}

/// A custom attribution only adds its own line to an asset's Markdown
/// entry, whatever the author: the entry with attribution `c` is the entry
/// without one with `- ` + `c` + a line break put before its closing
/// blank line.
pub proof fn law_markdown_custom_line(a: AssetInfoView, c: Seq<char>)
    ensures
        markdown_asset(AssetInfoView { custom_attribution: Some(c), ..a }) == markdown_asset(
            AssetInfoView { custom_attribution: None, ..a },
        ).drop_last() + "- "@ + c + "\n"@ + "\n"@,
{
    reveal_strlit("\n");
    let with = AssetInfoView { custom_attribution: Some(c), ..a };
    let without = AssetInfoView { custom_attribution: None, ..a };
    let body = "**"@ + a.name + "**\n"@ + ("- Author: "@ + markdown_author(a.author) + "\n"@) + (
    "- Source: **[link]("@ + a.source + ")**\n"@) + ("- License: **["@ + a.license + "]("@
        + a.license_source + ")**\n"@);
    assert(markdown_asset(without) =~= body + "\n"@);
    assert((body + "\n"@).drop_last() =~= body);
    assert(markdown_asset(with) =~= body + "- "@ + c + "\n"@ + "\n"@);
}

/// The Markdown entries of assets, in order.
pub open spec fn markdown_assets(s: Seq<AssetInfoView>) -> Seq<char>
    decreases s.len(),
{
    if s.len() == 0 {
        Seq::empty()
    } else {
        markdown_assets(s.drop_last()) + markdown_asset(s.last())
    }
}

/// The Markdown section of one type of asset.
pub open spec fn markdown_group(key: Seq<char>, members: Seq<AssetInfoView>) -> Seq<char> {
    "## "@ + capitalize(key) + "\n\n"@ + markdown_assets(members) + "\n"@
}

/// The Markdown sections of the first `n` groups.
pub open spec fn markdown_groups(keys: Seq<Seq<char>>, members: Seq<Seq<AssetInfoView>>, n: nat) -> Seq<
    char,
>
    decreases n,
{
    if n == 0 {
        Seq::empty()
    } else {
        markdown_groups(keys, members, (n - 1) as nat) + markdown_group(
            keys[n - 1],
            members[n - 1],
        )
    }
}

/// The Markdown credits for groups of assets.
pub open spec fn markdown_credits(keys: Seq<Seq<char>>, members: Seq<Seq<AssetInfoView>>) -> Seq<char> {
    markdown_header() + markdown_groups(keys, members, keys.len())
}

/// Appends `a`, `b` and `c`.
fn append_three(out: &mut String, a: &str, b: &str, c: &str)
    ensures
        final(out)@ == old(out)@ + (a@ + b@ + c@),
{
    append_str(out, a);
    append_str(out, b);
    append_str(out, c);
    assert(out@ =~= old(out)@ + (a@ + b@ + c@));
}

/// Appends the author line of a Markdown entry.
fn append_markdown_author(out: &mut String, author: &Option<String>)
    ensures
        final(out)@ == old(out)@ + ("- Author: "@ + markdown_author(opt_text(*author)) + "\n"@),
{
    append_str(out, "- Author: ");
    match author {
        Some(a) => {
            append_three(out, "**", a.as_str(), "**");
        },
        None => {
            append_str(out, "*(not attributed)*");
        },
    }
    append_str(out, "\n");
    assert(out@ =~= old(out)@ + ("- Author: "@ + markdown_author(opt_text(*author)) + "\n"@));
}

/// Appends the custom attribution line of a Markdown entry, if any.
fn append_markdown_custom(out: &mut String, custom: &Option<String>)
    ensures
        final(out)@ == old(out)@ + markdown_custom(opt_text(*custom)),
{
    match custom {
        Some(c) => {
            append_three(out, "- ", c.as_str(), "\n");
        },
        None => {
            assert(out@ =~= old(out)@ + markdown_custom(opt_text(*custom)));
        },
    }
}

/// Appends the Markdown entry of one asset.
fn append_markdown_asset(out: &mut String, a: &AssetInfo)
    ensures
        final(out)@ == old(out)@ + markdown_asset(a@),
{
    append_three(out, "**", a.name.as_str(), "**\n");
    append_markdown_author(out, &a.author);
    append_three(out, "- Source: **[link](", a.source.as_str(), ")**\n");
    let ghost before_license = out@;
    append_three(out, "- License: **[", a.license.as_str(), "](");
    append_str(out, a.license_source.as_str());
    append_str(out, ")**\n");
    assert(out@ =~= before_license + ("- License: **["@ + a.license@ + "]("@ + a.license_source@
        + ")**\n"@));
    append_markdown_custom(out, &a.custom_attribution);
    append_str(out, "\n");
    assert(out@ =~= old(out)@ + markdown_asset(a@));
}

/// The Markdown credits listing the groups of assets: a title and
/// thanks, then for each type a capitalized header and, for each asset, its
/// name, author (or that it is not attributed), source, license and any
/// custom attribution.
pub fn markdown_credits_text(groups: &Vec<(String, Vec<AssetInfo>)>) -> (text: String)
    ensures
        text@ == markdown_credits(group_keys(groups@), group_members(groups@)),
{
    let ghost keys = group_keys(groups@);
    let ghost members = group_members(groups@);
    let mut out = String::new();
    append_str(&mut out, "# Credits\n");
    append_str(&mut out, "The following assets are used in this project.\n");
    append_str(&mut out, "Huge thanks to all the creators!\n");
    append_str(&mut out, "\n\n");
    let mut i: usize = 0;
    while i < groups.len()
        invariant
            i <= groups@.len(),
            keys == group_keys(groups@),
            members == group_members(groups@),
            out@ == markdown_header() + markdown_groups(keys, members, i as nat),
        decreases groups@.len() - i,
    {
        let (key, assets) = &groups[i];
        let ghost before = out@;
        append_str(&mut out, "## ");
        append_capitalized(&mut out, key);
        append_str(&mut out, "\n\n");
        let ghost start = out@;
        let mut j: usize = 0;
        while j < assets.len()
            invariant
                j <= assets@.len(),
                out@ == start + markdown_assets(asset_views(assets@).take(j as int)),
            decreases assets@.len() - j,
        {
            append_markdown_asset(&mut out, &assets[j]);
            proof {
                let v = asset_views(assets@);
                assert(v.take(j + 1).drop_last() =~= v.take(j as int));
                assert(v.take(j + 1).last() == assets@[j as int]@);
            }
            j = j + 1;
        }
        append_str(&mut out, "\n");
        proof {
            assert(asset_views(assets@).take(assets@.len() as int) =~= asset_views(assets@));
            assert(keys[i as int] == key@);
            assert(members[i as int] == asset_views(assets@));
            assert(out@ =~= before + markdown_group(keys[i as int], members[i as int]));
        }
        i = i + 1;
    }
    out
}

/// The opening lines of the BBCode credits.
pub open spec fn bbcode_header() -> Seq<char> {
    "[p][b]Credits and Acknowledgements[/b][/p]\n"@
        + "This project would not have been possible wothout the use of assets and creations from other creators.\n"@
        + "See the bundled Markdown file for a detailed list of assets, authors, and licenses.\n"@
        + "\n\n"@
}

/// The BBCode line of one asset.
pub open spec fn bbcode_asset(a: AssetInfoView) -> Seq<char> {
    "[i]"@ + a.name + "[/i]"@ + match a.author {
        Some(author) => " by "@ + author,
        None => Seq::empty(),
    } + " ([url="@ + a.source + "]External link[/url])\n"@
}

/// An author only adds " by " and the author's name right after the
/// asset's name in its BBCode line; the rest of the line is the same as for
/// an asset without an author.
pub proof fn law_bbcode_author(a: AssetInfoView, author: Seq<char>)
    ensures
        ({
            let named = "[i]"@ + a.name + "[/i]"@;
            let without = bbcode_asset(AssetInfoView { author: None, ..a });
            &&& named.is_prefix_of(without)
            &&& bbcode_asset(AssetInfoView { author: Some(author), ..a }) == named + " by "@ + author
                + without.subrange(named.len() as int, without.len() as int)
        }),
{
    let named = "[i]"@ + a.name + "[/i]"@;
    let rest = " ([url="@ + a.source + "]External link[/url])\n"@;
    let without = bbcode_asset(AssetInfoView { author: None, ..a });
    assert(without =~= named + rest);
    assert(without.subrange(named.len() as int, without.len() as int) =~= rest);
    assert(without.take(named.len() as int) =~= named);
    assert(bbcode_asset(AssetInfoView { author: Some(author), ..a }) =~= named + " by "@ + author
        + rest);
}

/// The BBCode lines of assets, in order.
pub open spec fn bbcode_assets(s: Seq<AssetInfoView>) -> Seq<char>
    decreases s.len(),
{
    if s.len() == 0 {
        Seq::empty()
    } else {
        bbcode_assets(s.drop_last()) + bbcode_asset(s.last())
    }
}

/// The BBCode section of one type of asset.
pub open spec fn bbcode_group(key: Seq<char>, members: Seq<AssetInfoView>) -> Seq<char> {
    "[b]"@ + capitalize(key) + ":[/b]\n\n"@ + bbcode_assets(members) + "\n\n"@
}

/// The BBCode sections of the first `n` groups.
pub open spec fn bbcode_groups(keys: Seq<Seq<char>>, members: Seq<Seq<AssetInfoView>>, n: nat) -> Seq<
    char,
>
    decreases n,
{
    if n == 0 {
        Seq::empty()
    } else {
        bbcode_groups(keys, members, (n - 1) as nat) + bbcode_group(keys[n - 1], members[n - 1])
    }
}

/// The BBCode credits for groups of assets.
pub open spec fn bbcode_credits(keys: Seq<Seq<char>>, members: Seq<Seq<AssetInfoView>>) -> Seq<char> {
    bbcode_header() + bbcode_groups(keys, members, keys.len())
}

/// Appends the BBCode line of one asset.
fn append_bbcode_asset(out: &mut String, a: &AssetInfo)
    ensures
        final(out)@ == old(out)@ + bbcode_asset(a@),
{
    append_str(out, "[i]");
    append_str(out, a.name.as_str());
    append_str(out, "[/i]");
    match &a.author {
        Some(author) => {
            append_str(out, " by ");
            append_str(out, author.as_str());
        },
        None => {},
    }
    append_str(out, " ([url=");
    append_str(out, a.source.as_str());
    append_str(out, "]External link[/url])\n");
    assert(out@ =~= old(out)@ + bbcode_asset(a@));
}

/// The BBCode credits listing the groups of assets: a title and a note,
/// then for each type a capitalized header and, for each asset, its name,
/// its author when known, and a link to its source.
pub fn bbcode_credits_text(groups: &Vec<(String, Vec<AssetInfo>)>) -> (text: String)
    ensures
        text@ == bbcode_credits(group_keys(groups@), group_members(groups@)),
{
    let ghost keys = group_keys(groups@);
    let ghost members = group_members(groups@);
    let mut out = String::new();
    append_str(&mut out, "[p][b]Credits and Acknowledgements[/b][/p]\n");
    append_str(
        &mut out,
        "This project would not have been possible wothout the use of assets and creations from other creators.\n",
    );
    append_str(
        &mut out,
        "See the bundled Markdown file for a detailed list of assets, authors, and licenses.\n",
    );
    append_str(&mut out, "\n\n");
    let mut i: usize = 0;
    while i < groups.len()
        invariant
            i <= groups@.len(),
            keys == group_keys(groups@),
            members == group_members(groups@),
            out@ == bbcode_header() + bbcode_groups(keys, members, i as nat),
        decreases groups@.len() - i,
    {
        let (key, assets) = &groups[i];
        let ghost before = out@;
        append_str(&mut out, "[b]");
        append_capitalized(&mut out, key);
        append_str(&mut out, ":[/b]\n\n");
        let ghost start = out@;
        let mut j: usize = 0;
        while j < assets.len()
            invariant
                j <= assets@.len(),
                out@ == start + bbcode_assets(asset_views(assets@).take(j as int)),
            decreases assets@.len() - j,
        {
            append_bbcode_asset(&mut out, &assets[j]);
            proof {
                let v = asset_views(assets@);
                assert(v.take(j + 1).drop_last() =~= v.take(j as int));
                assert(v.take(j + 1).last() == assets@[j as int]@);
            }
            j = j + 1;
        }
        append_str(&mut out, "\n\n");
        proof {
            assert(asset_views(assets@).take(assets@.len() as int) =~= asset_views(assets@));
            assert(keys[i as int] == key@);
            assert(members[i as int] == asset_views(assets@));
            assert(out@ =~= before + bbcode_group(keys[i as int], members[i as int]));
        }
        i = i + 1;
    }
    out
}

} // verus!
