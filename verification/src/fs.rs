//! Directory entries, the order a listing is shown in, and how a file size
//! is written for people.
use vstd::prelude::*;
use vstd::arithmetic::div_mod::{lemma_div_denominator, lemma_fundamental_div_mod};
use crate::order::{lemma_insert_sorted, lemma_map_insert, sorted_by, strict_total};
use crate::order::{lemma_filter_single, lemma_sorted_from_adjacent};
use crate::path::{
    file_name_of, join_text, name_or_empty, name_text, parent_of, parse_path, FsPath,
};
use crate::text::{
    chars_less, decimal, digit, digit_char, lemma_str_lt_strict_total, lowercase, lowercase_chars,
    push_decimal, str_lt, string_of,
};

verus! {

broadcast use vstd::seq_lib::group_seq_properties, vstd::seq_lib::group_to_multiset_ensures;

/// One entry of a directory listing.
#[derive(Debug, PartialEq, Eq)]
pub struct FileItem {
    pub name: String,
    pub path: FsPath,
    pub is_dir: bool,
    pub size: u64,
    pub modified: String,
}

/// What a listing entry holds.
pub struct ItemView {
    pub name: Seq<char>,
    pub path: Seq<char>,
    pub is_dir: bool,
    pub size: u64,
    pub modified: Seq<char>,
}

impl View for FileItem {
    type V = ItemView;

    open spec fn view(&self) -> ItemView {
        ItemView {
            name: self.name@,
            path: self.path@,
            is_dir: self.is_dir,
            size: self.size,
            modified: self.modified@,
        }
    }
}

impl Clone for FileItem {
    fn clone(&self) -> (r: Self)
        ensures
            r@ == self@,
    {
        FileItem {
            name: self.name.clone(),
            path: self.path.clone(),
            is_dir: self.is_dir,
            size: self.size,
            modified: self.modified.clone(),
        }
    }
}

// ---------------------------------------------------------------------------
// Listing order
// ---------------------------------------------------------------------------

/// What an entry is ordered by under the name folding `fold`: whether it is
/// a directory, and its folded name.
pub open spec fn key_by(fold: spec_fn(Seq<char>) -> Seq<char>, v: ItemView) -> (bool, Seq<char>) {
    (v.is_dir, fold(v.name))
}

/// Names folded to lower case (std's `str::to_lowercase`).
pub open spec fn lowercase_fold() -> spec_fn(Seq<char>) -> Seq<char> {
    |s: Seq<char>| lowercase(s)
}

/// Directories come before everything else; within each group, names in
/// `String` order.
pub open spec fn key_lt() -> spec_fn((bool, Seq<char>), (bool, Seq<char>)) -> bool {
    |a: (bool, Seq<char>), b: (bool, Seq<char>)| (a.0 && !b.0) || (a.0 == b.0 && str_lt(a.1, b.1))
}

pub open spec fn item_views(s: Seq<FileItem>) -> Seq<ItemView> {
    s.map_values(|x: FileItem| x@)
}

pub open spec fn keys_by(fold: spec_fn(Seq<char>) -> Seq<char>, s: Seq<ItemView>) -> Seq<
    (bool, Seq<char>),
> {
    s.map_values(|v: ItemView| key_by(fold, v))
}

/// Entries appear in order of their keys under `fold`.
pub open spec fn sorted_by_fold(fold: spec_fn(Seq<char>) -> Seq<char>, s: Seq<ItemView>) -> bool {
    sorted_by(keys_by(fold, s), key_lt())
}

/// The entries whose key under `fold` is `k`.
pub open spec fn with_key_by(fold: spec_fn(Seq<char>) -> Seq<char>, k: (bool, Seq<char>)) -> spec_fn(
    ItemView,
) -> bool {
    |v: ItemView| key_by(fold, v) == k
}

/// Entries appear in listing order.
pub open spec fn listing_sorted(s: Seq<ItemView>) -> bool {
    sorted_by_fold(lowercase_fold(), s)
}

/// The entries whose listing key is `k`.
pub open spec fn with_key(k: (bool, Seq<char>)) -> spec_fn(ItemView) -> bool {
    with_key_by(lowercase_fold(), k)
}

/// The listing order on keys is a strict total order.
pub proof fn lemma_key_lt_strict_total()
    ensures
        strict_total(key_lt()),
{
    lemma_str_lt_strict_total();
    let s = |a: Seq<char>, b: Seq<char>| str_lt(a, b);
    assert forall|x: (bool, Seq<char>)| !#[trigger] key_lt()(x, x) by {
        assert(!s(x.1, x.1));
    }
    assert forall|x: (bool, Seq<char>), y: (bool, Seq<char>), z: (bool, Seq<char>)|
        #[trigger] key_lt()(x, y) && #[trigger] key_lt()(y, z) implies key_lt()(x, z) by {
        if x.0 == y.0 && y.0 == z.0 {
            assert(s(x.1, y.1) && s(y.1, z.1));
        }
    }
    assert forall|x: (bool, Seq<char>), y: (bool, Seq<char>)| x != y implies #[trigger] key_lt()(
        x,
        y,
    ) || #[trigger] key_lt()(y, x) by {
        if x.0 == y.0 {
            assert(s(x.1, y.1) || s(y.1, x.1));
        }
    }
}

proof fn lemma_filter_none<A>(s: Seq<A>, p: spec_fn(A) -> bool)
    requires
        forall|m: int| 0 <= m < s.len() ==> !p(#[trigger] s[m]),
    ensures
        s.filter(p) == Seq::<A>::empty(),
{
    broadcast use vstd::seq_lib::group_filter_ensures;

    if s.filter(p).len() > 0 {
        let e = s.filter(p)[0];
        assert(s.filter(p).contains(e));
        s.lemma_filter_contains_rev(p, e);
        assert(p(e));
    }
    assert(s.filter(p) =~= Seq::<A>::empty());
}

/// Inserting an entry before every entry with a greater key adds it at the
/// end of the entries that share its key and changes no other key's entries.
proof fn lemma_filter_insert(
    fold: spec_fn(Seq<char>) -> Seq<char>,
    s: Seq<ItemView>,
    j: int,
    x: ItemView,
    k: (bool, Seq<char>),
)
    requires
        0 <= j <= s.len(),
        forall|m: int| j <= m < s.len() ==> key_lt()(key_by(fold, x), #[trigger] key_by(fold, s[m])),
    ensures
        s.insert(j, x).filter(with_key_by(fold, k)) == (if key_by(fold, x) == k {
            s.filter(with_key_by(fold, k)).push(x)
        } else {
            s.filter(with_key_by(fold, k))
        }),
{
    lemma_key_lt_strict_total();
    let p = with_key_by(fold, k);
    let a = s.take(j);
    let b = s.skip(j);
    assert(s.insert(j, x) =~= a + seq![x] + b);
    assert(s =~= a + b);
    Seq::filter_distributes_over_add(a + seq![x], b, p);
    Seq::filter_distributes_over_add(a, seq![x], p);
    Seq::filter_distributes_over_add(a, b, p);
    lemma_filter_single(x, p);
    if key_by(fold, x) == k {
        assert forall|m: int| 0 <= m < b.len() implies !p(#[trigger] b[m]) by {
            assert(b[m] == s[j + m]);
            assert(key_lt()(key_by(fold, x), key_by(fold, s[j + m])));
        }
        lemma_filter_none(b, p);
        assert(a.filter(p) + seq![x].filter(p) + b.filter(p) =~= (a.filter(p) + b.filter(p)).push(
            x,
        ));
    } else {
        assert(a.filter(p) + seq![x].filter(p) + b.filter(p) =~= a.filter(p) + b.filter(p));
    }
}

fn key_less(a: &(bool, Vec<char>), b: &(bool, Vec<char>)) -> (r: bool)
    ensures
        r == key_lt()((a.0, a.1@), (b.0, b.1@)),
{
    if a.0 != b.0 {
        a.0
    } else {
        chars_less(&a.1, &b.1)
    }
}

/// The entries of a listing in the order of their keys, `keys[i]` being the
/// folded name of `items[i]` under `fold`: directories first, then files,
/// each group by folded name. Entries whose keys are equal keep the order
/// they came in, so the result is the only sorted arrangement of the input
/// that does.
pub fn sort_items_keyed(
    items: Vec<FileItem>,
    keys: Vec<Vec<char>>,
    Ghost(fold): Ghost<spec_fn(Seq<char>) -> Seq<char>>,
) -> (r: Vec<FileItem>)
    requires
        keys.len() == items.len(),
        forall|i: int| 0 <= i < keys.len() ==> (#[trigger] keys@[i])@ == fold(items@[i].name@),
    ensures
        r@.to_multiset() == items@.to_multiset(),
        sorted_by_fold(fold, item_views(r@)),
        forall|k: (bool, Seq<char>)|
            #[trigger] item_views(r@).filter(with_key_by(fold, k)) == item_views(items@).filter(
                with_key_by(fold, k),
            ),
{
    let ghost orig = items@;
    let ghost orig_keys = keys@;
    let ghost fv = |x: FileItem| x@;
    let ghost fk = |v: ItemView| key_by(fold, v);
    let mut rest = items;
    let mut rest_keys = keys;
    let mut out: Vec<FileItem> = Vec::new();
    let mut out_keys: Vec<(bool, Vec<char>)> = Vec::new();
    let ghost mut i: int = 0;
    proof {
        lemma_key_lt_strict_total();
        assert(orig.skip(0) =~= orig);
        assert(orig_keys.skip(0) =~= orig_keys);
        assert(orig.take(0) =~= Seq::<FileItem>::empty());
        reveal(Seq::filter);
        assert(item_views(out@) =~= Seq::<ItemView>::empty());
        assert(item_views(orig.take(0)) =~= Seq::<ItemView>::empty());
        assert(keys_by(fold, item_views(out@)) =~= Seq::<(bool, Seq<char>)>::empty());
    }
    while rest.len() > 0
        invariant
            0 <= i <= orig.len(),
            orig_keys.len() == orig.len(),
            forall|m: int| 0 <= m < orig_keys.len() ==> (#[trigger] orig_keys[m])@ == fold(orig[m].name@),
            rest@ == orig.skip(i),
            rest_keys@ == orig_keys.skip(i),
            fv == (|x: FileItem| x@),
            fk == (|v: ItemView| key_by(fold, v)),
            strict_total(key_lt()),
            out@.to_multiset() == orig.take(i).to_multiset(),
            out_keys.len() == out.len(),
            forall|m: int|
                0 <= m < out_keys.len() ==> (#[trigger] out_keys@[m]).0 == out@[m].is_dir
                    && out_keys@[m].1@ == fold(out@[m].name@),
            sorted_by_fold(fold, item_views(out@)),
            forall|k: (bool, Seq<char>)|
                #[trigger] item_views(out@).filter(with_key_by(fold, k)) == item_views(
                    orig.take(i),
                ).filter(with_key_by(fold, k)),
        decreases rest.len(),
    {
        assert(rest@[0] == orig[i]);
        assert(rest_keys@[0] == orig_keys[i]);
        let x = rest.remove(0);
        let folded = rest_keys.remove(0);
        let kx = (x.is_dir, folded);
        let ghost kxv = key_by(fold, x@);
        let ghost views = item_views(out@);
        let ghost ks = keys_by(fold, views);
        let mut j = out.len();
        while j > 0 && key_less(&kx, &out_keys[j - 1])
            invariant
                j <= out.len(),
                out_keys.len() == out.len(),
                views == item_views(out@),
                ks == keys_by(fold, views),
                kxv == (kx.0, kx.1@),
                forall|m: int|
                    0 <= m < out_keys.len() ==> (#[trigger] out_keys@[m]).0 == out@[m].is_dir
                        && out_keys@[m].1@ == fold(out@[m].name@),
                forall|m: int| j <= m < out.len() ==> key_lt()(kxv, #[trigger] ks[m]),
            decreases j,
        {
            assert(ks[j - 1] == (out_keys@[j - 1].0, out_keys@[j - 1].1@));
            j = j - 1;
        }
        proof {
            if j > 0 {
                assert(ks[j - 1] == (out_keys@[j - 1].0, out_keys@[j - 1].1@));
            }
            lemma_insert_sorted(ks, j as int, kxv, key_lt());
            lemma_map_insert(out@, j as int, x, fv);
            lemma_map_insert(views, j as int, x@, fk);
            assert(orig.take(i + 1) =~= orig.take(i).push(x));
            assert(rest@ =~= orig.skip(i + 1));
            assert(rest_keys@ =~= orig_keys.skip(i + 1));
            lemma_map_push_items(orig.take(i), x);
            assert forall|k: (bool, Seq<char>)|
                #[trigger] views.insert(j as int, x@).filter(with_key_by(fold, k)) == item_views(
                    orig.take(i + 1),
                ).filter(with_key_by(fold, k)) by {
                assert forall|m: int| j <= m < views.len() implies key_lt()(
                    key_by(fold, x@),
                    #[trigger] key_by(fold, views[m]),
                ) by {
                    assert(ks[m] == key_by(fold, views[m]));
                }
                lemma_filter_insert(fold, views, j as int, x@, k);
                item_views(orig.take(i)).lemma_filter_push(x@, with_key_by(fold, k));
            }
        }
        out.insert(j, x);
        out_keys.insert(j, kx);
        proof {
            i = i + 1;
        }
    }
    proof {
        assert(orig.take(i) =~= orig);
    }
    out
}

/// The entries of a listing in the order it is shown: directories first, then
/// files, each group by name compared in lower case. Entries whose keys are
/// equal keep the order they came in, so the result is the only sorted
/// arrangement of the input that does.
pub fn sort_items(items: Vec<FileItem>) -> (r: Vec<FileItem>)
    ensures
        r@.to_multiset() == items@.to_multiset(),
        listing_sorted(item_views(r@)),
        forall|k: (bool, Seq<char>)|
            #[trigger] item_views(r@).filter(with_key(k)) == item_views(items@).filter(with_key(k)),
{
    let mut keys: Vec<Vec<char>> = Vec::new();
    for i in 0..items.len()
        invariant
            keys.len() == i,
            forall|m: int| 0 <= m < i ==> (#[trigger] keys@[m])@ == lowercase_fold()(items@[m].name@),
    {
        keys.push(lowercase_chars(items[i].name.as_str()));
    }
    sort_items_keyed(items, keys, Ghost(lowercase_fold()))
}

proof fn lemma_key_present(fold: spec_fn(Seq<char>) -> Seq<char>, a: Seq<ItemView>, b: Seq<ItemView>, m: int)
    requires
        0 <= m < a.len(),
        forall|k: (bool, Seq<char>)|
            #[trigger] a.filter(with_key_by(fold, k)) == b.filter(with_key_by(fold, k)),
    ensures
        exists|n: int| 0 <= n < b.len() && key_by(fold, b[n]) == key_by(fold, a[m]),
{
    broadcast use vstd::seq_lib::group_filter_ensures;

    let p = with_key_by(fold, key_by(fold, a[m]));
    a.lemma_filter_contains(p, m);
    assert(a.filter(p) == b.filter(p));
    assert(b.filter(p).contains(a[m]));
    b.lemma_filter_contains_rev(p, a[m]);
    let n = choose|n: int| 0 <= n < b.len() && b[n] == a[m];
    assert(key_by(fold, b[n]) == key_by(fold, a[m]));
}

proof fn lemma_order_unique(fold: spec_fn(Seq<char>) -> Seq<char>, a: Seq<ItemView>, b: Seq<ItemView>)
    requires
        sorted_by_fold(fold, a),
        sorted_by_fold(fold, b),
        forall|k: (bool, Seq<char>)|
            #[trigger] a.filter(with_key_by(fold, k)) == b.filter(with_key_by(fold, k)),
    ensures
        a == b,
    decreases a.len(),
{
    broadcast use vstd::seq_lib::group_filter_ensures;

    lemma_key_lt_strict_total();
    if a.len() == 0 || b.len() == 0 {
        if a.len() > 0 {
            lemma_key_present(fold, a, b, 0);
        }
        if b.len() > 0 {
            assert forall|k: (bool, Seq<char>)|
                #[trigger] b.filter(with_key_by(fold, k)) == a.filter(with_key_by(fold, k)) by {}
            lemma_key_present(fold, b, a, 0);
        }
        assert(a =~= b);
    } else {
        let ka = key_by(fold, a[0]);
        let kb = key_by(fold, b[0]);
        let lt = key_lt();
        // the first keys agree: each is the least key of the listing
        lemma_key_present(fold, a, b, 0);
        let n = choose|n: int| 0 <= n < b.len() && key_by(fold, b[n]) == ka;
        if n > 0 {
            assert(keys_by(fold, b)[n] == ka && keys_by(fold, b)[0] == kb);
            assert(!lt(keys_by(fold, b)[n], keys_by(fold, b)[0]));
        }
        assert forall|k: (bool, Seq<char>)|
            #[trigger] b.filter(with_key_by(fold, k)) == a.filter(with_key_by(fold, k)) by {}
        lemma_key_present(fold, b, a, 0);
        let m = choose|m: int| 0 <= m < a.len() && key_by(fold, a[m]) == kb;
        if m > 0 {
            assert(keys_by(fold, a)[m] == kb && keys_by(fold, a)[0] == ka);
            assert(!lt(keys_by(fold, a)[m], keys_by(fold, a)[0]));
        }
        assert(!lt(ka, kb) && !lt(kb, ka));
        assert(ka == kb);
        // the first entries agree, and so do the filtered rests
        let a1 = a.drop_first();
        let b1 = b.drop_first();
        assert(a =~= seq![a[0]] + a1);
        assert(b =~= seq![b[0]] + b1);
        assert forall|k: (bool, Seq<char>)|
            #[trigger] a1.filter(with_key_by(fold, k)) == b1.filter(with_key_by(fold, k)) by {
            let p = with_key_by(fold, k);
            a1.lemma_filter_prepend(a[0], p);
            b1.lemma_filter_prepend(b[0], p);
            if k == ka {
                assert(a.filter(p)[0] == a[0]);
                assert(b.filter(p)[0] == b[0]);
                assert(a1.filter(p) =~= a.filter(p).drop_first());
                assert(b1.filter(p) =~= b.filter(p).drop_first());
            } else {
                assert(a1.filter(p) =~= a.filter(p));
                assert(b1.filter(p) =~= b.filter(p));
            }
        }
        let p0 = with_key_by(fold, ka);
        a1.lemma_filter_prepend(a[0], p0);
        b1.lemma_filter_prepend(b[0], p0);
        assert(a.filter(p0)[0] == a[0]);
        assert(b.filter(p0)[0] == b[0]);
        assert(keys_by(fold, a1) =~= keys_by(fold, a).drop_first());
        assert(keys_by(fold, b1) =~= keys_by(fold, b).drop_first());
        assert(sorted_by_fold(fold, a1)) by {
            assert forall|i: int, j: int| 0 <= i < j < a1.len() implies !lt(
                #[trigger] keys_by(fold, a1)[j],
                #[trigger] keys_by(fold, a1)[i],
            ) by {
                assert(keys_by(fold, a1)[j] == keys_by(fold, a)[j + 1]);
                assert(keys_by(fold, a1)[i] == keys_by(fold, a)[i + 1]);
            }
        }
        assert(sorted_by_fold(fold, b1)) by {
            assert forall|i: int, j: int| 0 <= i < j < b1.len() implies !lt(
                #[trigger] keys_by(fold, b1)[j],
                #[trigger] keys_by(fold, b1)[i],
            ) by {
                assert(keys_by(fold, b1)[j] == keys_by(fold, b)[j + 1]);
                assert(keys_by(fold, b1)[i] == keys_by(fold, b)[i + 1]);
            }
        }
        lemma_order_unique(fold, a1, b1);
    }
}

/// Listing order leaves no choice: two arrangements of the same entries that
/// are both in listing order, and both keep entries with equal keys in the
/// same relative order, are the same sequence. So `sort_items` gives the only
/// such arrangement, and gives a listing already in that order back unchanged.
pub proof fn lemma_listing_order_unique(a: Seq<ItemView>, b: Seq<ItemView>)
    requires
        listing_sorted(a),
        listing_sorted(b),
        forall|k: (bool, Seq<char>)| #[trigger] a.filter(with_key(k)) == b.filter(with_key(k)),
    ensures
        a == b,
{
    assert forall|k: (bool, Seq<char>)|
        #[trigger] a.filter(with_key_by(lowercase_fold(), k)) == b.filter(
            with_key_by(lowercase_fold(), k),
        ) by {
        assert(a.filter(with_key(k)) == b.filter(with_key(k)));
    }
    lemma_order_unique(lowercase_fold(), a, b);
}

proof fn lemma_map_push_items(s: Seq<FileItem>, x: FileItem)
    ensures
        item_views(s.push(x)) == item_views(s).push(x@),
{
    assert(item_views(s.push(x)) =~= item_views(s).push(x@));
}

// ---------------------------------------------------------------------------
// Sizes
// ---------------------------------------------------------------------------

pub open spec fn pow2(e: nat) -> nat
    decreases e,
{
    if e == 0 {
        1
    } else {
        2 * pow2((e - 1) as nat)
    }
}

/// The binary unit a size is shown in: 0 for B, 1 for KB, 2 for MB, 3 for GB,
/// 4 for TB; the largest power of 1024 not above the size, TB at most.
pub open spec fn unit_index(size: nat) -> nat {
    if size < 1024 {
        0
    } else if size < 1048576 {
        1
    } else if size < 1073741824 {
        2
    } else if size < 1099511627776 {
        3
    } else {
        4
    }
}

/// 1024 to the power of the unit.
pub open spec fn unit_scale(unit: nat) -> nat {
    if unit == 0 {
        1
    } else if unit == 1 {
        1024
    } else if unit == 2 {
        1048576
    } else if unit == 3 {
        1073741824
    } else {
        1099511627776
    }
}

pub open spec fn unit_name(unit: nat) -> Seq<char> {
    if unit == 0 {
        seq!['B']
    } else if unit == 1 {
        seq!['K', 'B']
    } else if unit == 2 {
        seq!['M', 'B']
    } else if unit == 3 {
        seq!['G', 'B']
    } else {
        seq!['T', 'B']
    }
}

/// How many low bits of `n` fall outside a 53-bit significand.
pub open spec fn f64_shift(n: nat) -> nat
    decreases n,
{
    if n < 0x20_0000_0000_0000 {
        0
    } else {
        1 + f64_shift(n / 2)
    }
}

/// `num / den` rounded to the nearest integer, ties to the even one.
pub open spec fn round_half_even(num: nat, den: nat) -> nat {
    let q = num / den;
    let r = num % den;
    if 2 * r > den || (2 * r == den && q % 2 == 1) {
        q + 1
    } else {
        q
    }
}

/// The value of `n as f64`: `n` rounded to 53 significant bits, ties to even.
pub open spec fn as_f64(n: nat) -> nat {
    let e = f64_shift(n);
    round_half_even(n, pow2(e)) * pow2(e)
}

/// The size in its unit, in hundredths: what `{:.2}` prints of
/// `size as f64 / 1024^unit`, the exact binary value rounded half to even.
pub open spec fn size_hundredths(size: nat) -> nat {
    round_half_even(100 * as_f64(size), unit_scale(unit_index(size)))
}

/// A size written for people: `0 B` for nothing, else the size in its unit
/// with two decimals, a space and the unit (`1.50 KB`).
pub open spec fn size_text(size: nat) -> Seq<char> {
    if size == 0 {
        seq!['0', ' ', 'B']
    } else {
        let h = size_hundredths(size);
        decimal(h / 100) + seq!['.', digit((h / 10) % 10), digit(h % 10), ' '] + unit_name(
            unit_index(size),
        )
    }
}

fn round_half_even_exec(num: u128, den: u128) -> (r: u128)
    requires
        den > 0,
        num < 0x1_0000_0000_0000_0000_0000_0000_0000,
    ensures
        r == round_half_even(num as nat, den as nat),
{
    let q = num / den;
    let rem = num % den;
    let up = if rem > den - rem {
        true
    } else if rem == den - rem {
        q % 2 == 1
    } else {
        false
    };
    if up {
        assert(q <= num) by {
            vstd::arithmetic::div_mod::lemma_div_is_ordered_by_denominator(num as int, 1, den as int);
        }
        q + 1
    } else {
        q
    }
}

fn as_f64_exec(n: u64) -> (r: u128)
    ensures
        r == as_f64(n as nat),
        r <= 0x4_0000_0000_0000_0000,
{
    let mut m: u64 = n;
    let mut e: u32 = 0;
    let mut p: u128 = 1;
    while m >= 0x20_0000_0000_0000
        invariant
            m as nat == (n as nat) / (p as nat),
            p as nat == pow2(e as nat),
            1 <= p <= 0x1000,
            p * m <= n,
            e <= 64,
            f64_shift(n as nat) == e + f64_shift(m as nat),
        decreases m,
    {
        proof {
            lemma_div_denominator(n as int, p as int, 2);
            assert(p * 0x20_0000_0000_0000 <= p * m) by (nonlinear_arith)
                requires
                    m >= 0x20_0000_0000_0000,
                    p >= 1,
            ;
            assert(p < 0x800) by (nonlinear_arith)
                requires
                    p * 0x20_0000_0000_0000 <= n,
                    n < 0x1_0000_0000_0000_0000,
            ;
            assert(e < 64) by {
                if e >= 11 {
                    lemma_pow2_ge(e as nat);
                }
            }
            assert(2 * p * (m / 2) <= p * m) by (nonlinear_arith)
                requires
                    p >= 1,
            ;
        }
        m = m / 2;
        e = e + 1;
        p = p * 2;
    }
    assert(f64_shift(m as nat) == 0);
    if e == 0 {
        assert(pow2(0) == 1);
        assert(m == n);
        assert(f64_shift(n as nat) == 0);
        let ghost nn = n as nat;
        assert(nn / 1 == nn && nn % 1 == 0) by (nonlinear_arith);
        assert(round_half_even(nn, 1) == nn);
        assert(as_f64(nn) == round_half_even(nn, pow2(0)) * pow2(0));
        return n as u128;
    }
    proof {
        lemma_fundamental_div_mod(n as int, p as int);
    }
    let q: u128 = m as u128;
    assert(q * p <= n) by (nonlinear_arith)
        requires
            p * m <= n,
            q == m,
    ;
    let rem: u128 = n as u128 - q * p;
    assert(rem == (n as nat) % (p as nat)) by {
        assert(n as int == p * (n as int / p as int) + (n as int % p as int));
    }
    let r = round_half_even_exec(n as u128, p);
    assert(r <= q + 1);
    assert((q + 1) * p <= n + p) by (nonlinear_arith)
        requires
            q * p <= n,
    ;
    assert(r * p <= 0x4_0000_0000_0000_0000) by (nonlinear_arith)
        requires
            r <= q + 1,
            q < 0x20_0000_0000_0000,
            1 <= p <= 0x1000,
    ;
    r * p
}

proof fn lemma_pow2_ge(e: nat)
    requires
        e >= 11,
    ensures
        pow2(e) >= 2048,
    decreases e,
{
    if e == 11 {
        reveal_with_fuel(pow2, 12);
    } else {
        lemma_pow2_ge((e - 1) as nat);
    }
}

/// A size written for people, as `0 B` or `1.50 KB`: the size in the largest
/// binary unit (up to TB) that does not exceed it, with two decimals.
pub fn format_size(size: u64) -> (r: String)
    ensures
        r@ == size_text(size as nat),
{
    let mut out: Vec<char> = Vec::new();
    if size == 0 {
        out.push('0');
        out.push(' ');
        out.push('B');
        assert(out@ =~= size_text(0));
        return string_of(&out);
    }
    let unit: u8 = if size < 1024 {
        0
    } else if size < 1048576 {
        1
    } else if size < 1073741824 {
        2
    } else if size < 1099511627776 {
        3
    } else {
        4
    };
    let scale: u128 = if unit == 0 {
        1
    } else if unit == 1 {
        1024
    } else if unit == 2 {
        1048576
    } else if unit == 3 {
        1073741824
    } else {
        1099511627776
    };
    let f = as_f64_exec(size);
    let h = round_half_even_exec(100 * f, scale);
    assert(h == size_hundredths(size as nat));
    push_decimal(&mut out, h / 100);
    out.push('.');
    let d1 = digit_char((h / 10) % 10);
    out.push(d1);
    let d2 = digit_char(h % 10);
    out.push(d2);
    out.push(' ');
    if unit == 0 {
        out.push('B');
    } else {
        let c = if unit == 1 {
            'K'
        } else if unit == 2 {
            'M'
        } else if unit == 3 {
            'G'
        } else {
            'T'
        };
        out.push(c);
        out.push('B');
    }
    assert(out@ =~= size_text(size as nat));
    string_of(&out)
}

// ---------------------------------------------------------------------------
// Listings of a directory
// ---------------------------------------------------------------------------

/// The path `path` lies directly in the directory `dir`.
pub open spec fn in_directory(dir: Seq<char>, path: Seq<char>) -> bool {
    parent_of(parse_path(path)) == Some(parse_path(dir))
}

/// `items` is a listing of `dir` as it is shown: in listing order, every
/// entry directly in `dir`.
pub open spec fn listing_fits(dir: Seq<char>, items: Seq<ItemView>) -> bool {
    &&& listing_sorted(items)
    &&& forall|i: int| 0 <= i < items.len() ==> in_directory(dir, #[trigger] items[i].path)
}

/// Whether the path `path` lies directly in the directory `dir`.
pub fn lies_in(dir: &FsPath, path: &FsPath) -> (r: bool)
    ensures
        r == in_directory(dir@, path@),
{
    match path.parent() {
        Some(q) => q.same_as(dir),
        None => false,
    }
}

/// Whether `items` is a listing of `dir` as it is shown.
pub fn fits_directory(dir: &FsPath, items: &Vec<FileItem>) -> (r: bool)
    ensures
        r == listing_fits(dir@, item_views(items@)),
{
    let ghost views = item_views(items@);
    let ghost keys = keys_by(lowercase_fold(), views);
    let mut prev: Option<(bool, Vec<char>)> = None;
    let n = items.len();
    for i in 0..n
        invariant
            n == items.len(),
            views == item_views(items@),
            keys == keys_by(lowercase_fold(), views),
            forall|m: int| 0 <= m < i ==> in_directory(dir@, #[trigger] views[m].path),
            forall|m: int| 0 <= m < i - 1 ==> !key_lt()(#[trigger] keys[m + 1], keys[m]),
            i > 0 ==> (prev matches Some(k) && (k.0, k.1@) == keys[i - 1]),
            i == 0 ==> prev is None,
    {
        let item = &items[i];
        if !lies_in(dir, &item.path) {
            assert(!in_directory(dir@, views[i as int].path));
            return false;
        }
        let key = (item.is_dir, lowercase_chars(item.name.as_str()));
        assert((key.0, key.1@) == keys[i as int]);
        if let Some(k) = &prev {
            if key_less(&key, k) {
                assert(!sorted_by(keys, key_lt()));
                return false;
            }
        }
        prev = Some(key);
    }
    proof {
        lemma_key_lt_strict_total();
        lemma_sorted_from_adjacent(keys, key_lt());
    }
    true
}

// ---------------------------------------------------------------------------
// Building a listing from what the file system reports
// ---------------------------------------------------------------------------

/// The text chrono writes for the local time `local_secs` (seconds since
/// 1970-01-01 00:00 on the local clock) in the form `%Y-%m-%d %H:%M`, or
/// nothing where chrono has no date for it.
pub uninterp spec fn minute_text(local_secs: i64) -> Option<Seq<char>>;

/// Calls chrono's `DateTime::from_timestamp` on `local_secs` and writes the
/// date and time it gives with `format("%Y-%m-%d %H:%M")`. Claimed: the
/// result is `minute_text` of `local_secs`; nothing more is stated of it.
#[verifier::external_body]
pub fn format_minute(local_secs: i64) -> (r: Option<String>)
    ensures
        match r {
            Some(t) => minute_text(local_secs) == Some(t@),
            None => minute_text(local_secs) is None,
        },
{
    match chrono::DateTime::from_timestamp(local_secs, 0) {
        Some(t) => Some(t.naive_utc().format("%Y-%m-%d %H:%M").to_string()),
        None => None,
    }
}

/// A directory entry as the file system reports it: its path, whether it is
/// a directory, its size in bytes, and when it was last changed, in seconds
/// since 1970-01-01 00:00 on the local clock.
#[derive(Debug)]
pub struct RawEntry {
    pub path: FsPath,
    pub is_dir: bool,
    pub size: u64,
    pub local_secs: i64,
}

/// The time text of `local_secs`, where there is one.
pub open spec fn time_or_empty(local_secs: i64) -> Seq<char> {
    match minute_text(local_secs) {
        Some(t) => t,
        None => Seq::empty(),
    }
}

/// The listing entry for a reported entry: named by the last component of
/// its path, with its time written out.
pub open spec fn entry_item(e: RawEntry) -> ItemView {
    ItemView {
        name: name_or_empty(e.path@),
        path: e.path@,
        is_dir: e.is_dir,
        size: e.size,
        modified: time_or_empty(e.local_secs),
    }
}

pub open spec fn entry_items(es: Seq<RawEntry>) -> Seq<ItemView> {
    es.map_values(|e: RawEntry| entry_item(e))
}

/// Each listing entry built from what the file system reported keeps that
/// report: the same path, kind and size (every `u64` size, unchanged), named
/// by the path's file name, with the time written out where it can be.
pub proof fn lemma_entries_keep_report(es: Seq<RawEntry>)
    ensures
        entry_items(es).len() == es.len(),
        forall|i: int|
            0 <= i < es.len() ==> {
                let v = #[trigger] entry_items(es)[i];
                &&& v.path == es[i].path@
                &&& v.is_dir == es[i].is_dir
                &&& v.size == es[i].size
                &&& (file_name_of(parse_path(es[i].path@)) matches Some(n) ==> v.name == n)
                &&& (minute_text(es[i].local_secs) matches Some(t) ==> v.modified == t)
            },
{
}

/// Every reported time can be written out.
pub open spec fn times_known(es: Seq<RawEntry>) -> bool {
    forall|i: int| 0 <= i < es.len() ==> (#[trigger] minute_text(es[i].local_secs)) is Some
}

/// Rearranging the entries of a directory leaves each of them in it.
proof fn lemma_entries_stay_inside(dir: Seq<char>, es: Seq<RawEntry>, before: Seq<FileItem>, after: Seq<FileItem>)
    requires
        item_views(before) == entry_items(es),
        forall|i: int| 0 <= i < es.len() ==> in_directory(dir, #[trigger] es[i].path@),
        after.to_multiset() == before.to_multiset(),
    ensures
        forall|m: int| 0 <= m < after.len() ==> in_directory(dir, #[trigger] item_views(after)[m].path),
{
    assert forall|m: int| 0 <= m < after.len() implies in_directory(
        dir,
        #[trigger] item_views(after)[m].path,
    ) by {
        assert(after.contains(after[m]));
        assert(after.to_multiset().count(after[m]) > 0);
        assert(before.contains(after[m]));
        let j = choose|j: int| 0 <= j < before.len() && before[j] == after[m];
        assert(item_views(before).len() == before.len());
        assert(entry_items(es).len() == es.len());
        assert(item_views(before)[j] == entry_items(es)[j]);
        assert(entry_items(es)[j].path == es[j].path@);
        assert(item_views(after)[m] == after[m]@);
    }
}

/// The listing entries for the reported entries, in the order reported, or
/// none when a time cannot be written out.
fn entry_listing(entries: &Vec<RawEntry>) -> (r: Option<Vec<FileItem>>)
    ensures
        r is Some <==> times_known(entries@),
        r matches Some(v) ==> item_views(v@) == entry_items(entries@),
{
    let mut items: Vec<FileItem> = Vec::new();
    let n = entries.len();
    for i in 0..n
        invariant
            n == entries.len(),
            items@.len() == i,
            forall|m: int| 0 <= m < i ==> (#[trigger] items@[m])@ == entry_item(entries@[m]),
            forall|m: int| 0 <= m < i ==> (#[trigger] minute_text(entries@[m].local_secs)) is Some,
    {
        let e = &entries[i];
        let modified = match format_minute(e.local_secs) {
            Some(t) => t,
            None => {
                return None;
            },
        };
        let name = name_text(&e.path);
        let item = FileItem { name, path: e.path.clone(), is_dir: e.is_dir, size: e.size, modified };
        assert(item@ == entry_item(entries@[i as int]));
        items.push(item);
    }
    assert(item_views(items@) =~= entry_items(entries@));
    Some(items)
}

/// The listing of the directory `dir` from the entries reported in it: each
/// entry named by its file name and with its time written out, in listing
/// order (directories first, then names compared in lower case; equal keys
/// keep the order they were reported in). There is none when a time cannot
/// be written out.
pub fn listing_of(dir: &FsPath, entries: Vec<RawEntry>) -> (r: Option<Vec<FileItem>>)
    requires
        forall|i: int| 0 <= i < entries.len() ==> in_directory(dir@, #[trigger] entries@[i].path@),
    ensures
        r is Some <==> times_known(entries@),
        r matches Some(v) ==> {
            &&& listing_fits(dir@, item_views(v@))
            &&& forall|k: (bool, Seq<char>)|
                #[trigger] item_views(v@).filter(with_key(k)) == entry_items(entries@).filter(
                    with_key(k),
                )
        },
{
    match entry_listing(&entries) {
        None => None,
        Some(items) => {
            let ghost before = items@;
            let r = sort_items(items);
            proof {
                lemma_entries_stay_inside(dir@, entries@, before, r@);
            }
            Some(r)
        },
    }
}

// ---------------------------------------------------------------------------
// Copying a directory tree
// ---------------------------------------------------------------------------

/// What copying one path to a destination does first.
#[derive(Debug, PartialEq, Eq, Structural)]
pub enum CopyStep {
    /// The path is a file: copy it.
    CopyFile,
    /// The path is a directory and the destination exists: copy its entries into it.
    EntriesOnly,
    /// The path is a directory and the destination does not exist: create it, then copy the entries.
    CreateDirThenEntries,
}

/// The first step of copying a path, from whether it is a directory and
/// whether the destination exists.
pub fn copy_step(source_is_dir: bool, dest_exists: bool) -> (r: CopyStep)
    ensures
        r == (if !source_is_dir {
            CopyStep::CopyFile
        } else if dest_exists {
            CopyStep::EntriesOnly
        } else {
            CopyStep::CreateDirThenEntries
        }),
{
    if !source_is_dir {
        CopyStep::CopyFile
    } else if dest_exists {
        CopyStep::EntriesOnly
    } else {
        CopyStep::CreateDirThenEntries
    }
}

/// Where a directory entry named `name` is copied to inside `dest`.
pub fn copy_entry_dest(dest: &FsPath, name: &String) -> (r: FsPath)
    ensures
        r@ == join_text(dest@, name@),
{
    dest.join_str(name.as_str())
}

} // verus!
