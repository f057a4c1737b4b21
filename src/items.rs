//! The top level of a declaration: its items are the token ranges between the commas that
//! stand outside every bracket; the items before the first `<=>` are types.
use vstd::prelude::*;
use crate::term::is_punct_tok;
use crate::token::{
    tviews, Token, TokenKind, TokenV, COMMA, EQUALS, GREATER, LBRACE, LBRACKET, LESS, LPAREN,
    RBRACE, RBRACKET, RPAREN,
};

verus! {

pub open spec fn is_punct_text(t: TokenV, s: Seq<u8>) -> bool {
    t.0 == TokenKind::Punct && t.1 == s
}

/// `(`, `[`, `{` or `<`.
pub open spec fn is_open(t: TokenV) -> bool {
    is_punct_text(t, seq![LPAREN]) || is_punct_text(t, seq![LBRACKET]) || is_punct_text(
        t,
        seq![LBRACE],
    ) || is_punct_text(t, seq![LESS])
}

/// `)`, `]`, `}` or `>`.
pub open spec fn is_close(t: TokenV) -> bool {
    is_punct_text(t, seq![RPAREN]) || is_punct_text(t, seq![RBRACKET]) || is_punct_text(
        t,
        seq![RBRACE],
    ) || is_punct_text(t, seq![GREATER])
}

pub open spec fn is_arrow_tok(t: TokenV) -> bool {
    is_punct_text(t, seq![LESS, EQUALS, GREATER])
}

/// How many brackets are open before token `i`.
pub open spec fn depth(ts: Seq<TokenV>, i: int) -> int
    decreases i,
{
    if i <= 0 || i > ts.len() {
        0
    } else {
        depth(ts, i - 1) + if is_open(ts[i - 1]) {
            1int
        } else if is_close(ts[i - 1]) {
            -1int
        } else {
            0int
        }
    }
}

/// No bracket closes before it opens, and all are closed at the end.
pub open spec fn balanced(ts: Seq<TokenV>) -> bool {
    &&& forall|i: int| 0 <= i <= ts.len() ==> depth(ts, i) >= 0
    &&& depth(ts, ts.len() as int) == 0
}

/// Token `i` is a comma outside every bracket.
pub open spec fn is_sep(ts: Seq<TokenV>, i: int) -> bool {
    0 <= i < ts.len() && is_punct_text(ts[i], seq![COMMA]) && depth(ts, i) == 0
}

/// Some item is empty: no tokens at all, a comma first, or two commas in a row.
pub open spec fn has_empty_item(ts: Seq<TokenV>) -> bool {
    ||| ts.len() == 0
    ||| is_sep(ts, 0)
    ||| exists|i: int| is_sep(ts, i) && #[trigger] is_sep(ts, i + 1)
}

/// `items` are the ranges between separators, in order, covering all tokens; the last
/// separator may end the list.
pub open spec fn splits(ts: Seq<TokenV>, items: Seq<(usize, usize)>) -> bool {
    &&& items.len() > 0
    &&& items[0].0 == 0
    &&& forall|k: int|
        0 <= k < items.len() ==> (#[trigger] items[k]).0 < items[k].1 <= ts.len()
    &&& forall|k: int|
        0 <= k < items.len() - 1 ==> is_sep(ts, (#[trigger] items[k]).1 as int) && items[k
            + 1].0 == items[k].1 + 1
    &&& (items.last().1 == ts.len() || (items.last().1 + 1 == ts.len() && is_sep(
        ts,
        items.last().1 as int,
    )))
    &&& forall|k: int, j: int|
        #![trigger items[k], is_sep(ts, j)]
        0 <= k < items.len() && items[k].0 <= j < items[k].1 ==> !is_sep(ts, j)
}

/// The token range `item` holds a `<=>`.
pub open spec fn item_has_arrow(ts: Seq<TokenV>, item: (usize, usize)) -> bool {
    exists|j: int| item.0 <= j < item.1 && #[trigger] is_arrow_tok(ts[j])
}

/// The first `<=>` in `ts[i..hi]`.
pub open spec fn first_arrow(ts: Seq<TokenV>, i: int, hi: int) -> Option<int>
    decreases hi - i,
{
    if i < 0 || i >= hi || i >= ts.len() {
        None
    } else if is_arrow_tok(ts[i]) {
        Some(i)
    } else {
        first_arrow(ts, i + 1, hi)
    }
}

/// `h` items come before the first item that holds a `<=>`.
pub open spec fn is_header_len(ts: Seq<TokenV>, items: Seq<(usize, usize)>, h: int) -> bool {
    &&& 0 <= h <= items.len()
    &&& forall|k: int| 0 <= k < h ==> !item_has_arrow(ts, #[trigger] items[k])
    &&& h < items.len() ==> item_has_arrow(ts, items[h])
}

proof fn lemma_splits_agree_at(
    ts: Seq<TokenV>,
    a: Seq<(usize, usize)>,
    b: Seq<(usize, usize)>,
    k: int,
)
    requires
        splits(ts, a),
        splits(ts, b),
        0 <= k < a.len(),
        k < b.len(),
    ensures
        a[k] == b[k],
    decreases k,
{
    if k > 0 {
        lemma_splits_agree_at(ts, a, b, k - 1);
        assert(a[k].0 == b[k].0);
    }
    let s = a[k].0;
    assert(s == b[k].0);
    if a[k].1 < b[k].1 {
        assert(!is_sep(ts, a[k].1 as int));
        assert(b[k].0 <= a[k].1 < b[k].1);
        if k < a.len() - 1 {
            assert(is_sep(ts, a[k].1 as int));
        } else {
            assert(a.last() == a[k]);
        }
    } else if b[k].1 < a[k].1 {
        assert(!is_sep(ts, b[k].1 as int));
        assert(a[k].0 <= b[k].1 < a[k].1);
        if k < b.len() - 1 {
            assert(is_sep(ts, b[k].1 as int));
        } else {
            assert(b.last() == b[k]);
        }
    }
}

/// A declaration splits into items in one way only.
pub proof fn lemma_splits_unique(ts: Seq<TokenV>, a: Seq<(usize, usize)>, b: Seq<(usize, usize)>)
    requires
        splits(ts, a),
        splits(ts, b),
    ensures
        a == b,
{
    if a.len() < b.len() {
        let k = a.len() - 1;
        lemma_splits_agree_at(ts, a, b, k);
        assert(b[k + 1].0 == b[k].1 + 1);
        assert(a.last() == a[k]);
    } else if b.len() < a.len() {
        let k = b.len() - 1;
        lemma_splits_agree_at(ts, a, b, k);
        assert(a[k + 1].0 == a[k].1 + 1);
        assert(b.last() == b[k]);
    } else {
        assert forall|k: int| 0 <= k < a.len() implies a[k] == b[k] by {
            lemma_splits_agree_at(ts, a, b, k);
        }
        assert(a =~= b);
    }
}

/// The header of a split has one length only.
pub proof fn lemma_header_len_unique(ts: Seq<TokenV>, items: Seq<(usize, usize)>, h1: int, h2: int)
    requires
        is_header_len(ts, items, h1),
        is_header_len(ts, items, h2),
    ensures
        h1 == h2,
{
    if h1 < h2 {
        assert(!item_has_arrow(ts, items[h1]));
    } else if h2 < h1 {
        assert(!item_has_arrow(ts, items[h2]));
    }
}

/// A comma token.
pub open spec fn comma_tok() -> TokenV {
    (TokenKind::Punct, seq![COMMA])
}

proof fn lemma_depth_push(ts: Seq<TokenV>, t: TokenV, i: int)
    requires
        0 <= i <= ts.len(),
    ensures
        depth(ts.push(t), i) == depth(ts, i),
    decreases i,
{
    if i > 0 {
        lemma_depth_push(ts, t, i - 1);
        assert(ts.push(t)[i - 1] == ts[i - 1]);
    }
}

/// A comma after the last item changes neither whether the brackets pair up, nor whether an
/// item is empty, nor the items, nor how many of them are types.
pub proof fn lemma_trailing_comma(ts: Seq<TokenV>, items: Seq<(usize, usize)>, h: int)
    requires
        ts.len() > 0,
        !is_sep(ts, ts.len() - 1),
    ensures
        balanced(ts.push(comma_tok())) == balanced(ts),
        balanced(ts) ==> has_empty_item(ts.push(comma_tok())) == has_empty_item(ts),
        balanced(ts) && splits(ts, items) ==> splits(ts.push(comma_tok()), items),
        is_header_len(ts, items, h) && splits(ts, items) ==> is_header_len(
            ts.push(comma_tok()),
            items,
            h,
        ),
{
    let c = comma_tok();
    let t2 = ts.push(c);
    let n = ts.len() as int;
    assert forall|i: int| 0 <= i <= n implies depth(t2, i) == depth(ts, i) by {
        lemma_depth_push(ts, c, i);
    }
    assert(t2[n] == c);
    assert(!is_open(c) && !is_close(c)) by {
        assert(c.1[0] == COMMA);
    }
    assert(depth(t2, n + 1) == depth(ts, n));
    if balanced(ts) {
        assert forall|i: int| 0 <= i <= t2.len() implies depth(t2, i) >= 0 by {
            if i <= n {
                assert(depth(t2, i) == depth(ts, i));
            }
        }
    }
    if balanced(t2) {
        assert forall|i: int| 0 <= i <= ts.len() implies depth(ts, i) >= 0 by {
            assert(depth(t2, i) >= 0);
        }
    }
    assert forall|j: int| 0 <= j < n implies is_sep(t2, j) == is_sep(ts, j) by {
        assert(t2[j] == ts[j]);
    }
    if balanced(ts) {
        assert(is_sep(t2, n));
        if has_empty_item(ts) {
            if ts.len() == 0 {
            } else if is_sep(ts, 0) {
                assert(is_sep(t2, 0));
            } else {
                let i = choose|i: int| is_sep(ts, i) && #[trigger] is_sep(ts, i + 1);
                assert(is_sep(t2, i) && is_sep(t2, i + 1));
            }
        }
        if has_empty_item(t2) {
            if is_sep(t2, 0) {
                assert(n > 0);
                assert(is_sep(ts, 0));
            } else {
                let i = choose|i: int| is_sep(t2, i) && #[trigger] is_sep(t2, i + 1);
                if i + 1 == n {
                    assert(is_sep(ts, n - 1));
                }
                assert(is_sep(ts, i) && is_sep(ts, i + 1));
            }
        }
        if splits(ts, items) {
            assert(items.last().1 == ts.len());
            assert forall|k: int, j: int|
                #![trigger items[k], is_sep(t2, j)]
                0 <= k < items.len() && items[k].0 <= j < items[k].1 implies !is_sep(t2, j) by {
                assert(!is_sep(ts, j));
            }
            assert forall|k: int| 0 <= k < items.len() - 1 implies is_sep(
                t2,
                (#[trigger] items[k]).1 as int,
            ) by {
                assert(is_sep(ts, items[k].1 as int));
            }
        }
    }
    if is_header_len(ts, items, h) && splits(ts, items) {
        assert forall|it: (usize, usize)|
            it.1 <= ts.len() implies item_has_arrow(t2, it) == item_has_arrow(ts, it) by {
            if item_has_arrow(ts, it) {
                let j = choose|j: int| it.0 <= j < it.1 && #[trigger] is_arrow_tok(ts[j]);
                assert(t2[j] == ts[j]);
            }
            if item_has_arrow(t2, it) {
                let j = choose|j: int| it.0 <= j < it.1 && #[trigger] is_arrow_tok(t2[j]);
                assert(t2[j] == ts[j]);
            }
        }
        assert forall|k: int| 0 <= k < h implies !item_has_arrow(t2, #[trigger] items[k]) by {
            assert(!item_has_arrow(ts, items[k]));
        }
        if h < items.len() {
            assert(item_has_arrow(ts, items[h]));
        }
    }
}

fn opens(t: &Token) -> (r: bool)
    ensures
        r == is_open((t.kind, t.text@)),
{
    is_punct_tok(t, LPAREN) || is_punct_tok(t, LBRACKET) || is_punct_tok(t, LBRACE)
        || is_punct_tok(t, LESS)
}

fn closes(t: &Token) -> (r: bool)
    ensures
        r == is_close((t.kind, t.text@)),
{
    is_punct_tok(t, RPAREN) || is_punct_tok(t, RBRACKET) || is_punct_tok(t, RBRACE)
        || is_punct_tok(t, GREATER)
}

/// Whether a token is `<=>`.
pub fn is_arrow(t: &Token) -> (r: bool)
    ensures
        r == is_arrow_tok((t.kind, t.text@)),
{
    let r = t.kind == TokenKind::Punct && t.text.len() == 3 && t.text[0] == LESS && t.text[1]
        == EQUALS && t.text[2] == GREATER;
    assert(r ==> t.text@ =~= seq![LESS, EQUALS, GREATER]);
    r
}

/// Whether the brackets of `toks` pair up.
pub fn check_balanced(toks: &Vec<Token>) -> (r: bool)
    ensures
        r == balanced(tviews(toks@)),
{
    let n = toks.len();
    let mut d: usize = 0;
    let mut i: usize = 0;
    while i < n
        invariant
            n == toks.len(),
            i <= n,
            d <= i,
            d == depth(tviews(toks@), i as int),
            forall|j: int| 0 <= j <= i ==> depth(tviews(toks@), j) >= 0,
        decreases n - i,
    {
        if opens(&toks[i]) {
            d = d + 1;
        } else if closes(&toks[i]) {
            if d == 0 {
                assert(depth(tviews(toks@), i + 1) < 0);
                return false;
            }
            d = d - 1;
        }
        i = i + 1;
    }
    d == 0
}

/// Splits a balanced declaration into its items; `None` when one of them is empty.
pub fn split_items(toks: &Vec<Token>) -> (r: Option<Vec<(usize, usize)>>)
    requires
        balanced(tviews(toks@)),
    ensures
        r is None <==> has_empty_item(tviews(toks@)),
        r matches Some(items) ==> splits(tviews(toks@), items@),
{
    let ghost ts = tviews(toks@);
    let n = toks.len();
    if n == 0 {
        return None;
    }
    let mut items: Vec<(usize, usize)> = Vec::new();
    let mut d: usize = 0;
    let mut start: usize = 0;
    let mut i: usize = 0;
    while i < n
        invariant
            ts == tviews(toks@),
            n == toks.len(),
            n > 0,
            balanced(ts),
            start <= i <= n,
            d <= i,
            d == depth(ts, i as int),
            items.len() == 0 ==> start == 0,
            items.len() > 0 ==> items@[0].0 == 0 && start == items@.last().1 + 1
                && is_sep(ts, items@.last().1 as int),
            forall|k: int|
                0 <= k < items.len() ==> (#[trigger] items@[k]).0 < items@[k].1 < i,
            forall|k: int|
                0 <= k < items.len() - 1 ==> is_sep(ts, (#[trigger] items@[k]).1 as int)
                    && items@[k + 1].0 == items@[k].1 + 1,
            forall|k: int, j: int|
                #![trigger items@[k], is_sep(ts, j)]
                0 <= k < items.len() && items@[k].0 <= j < items@[k].1 ==> !is_sep(ts, j),
            forall|j: int| start <= j < i ==> !#[trigger] is_sep(ts, j),
            forall|j: int| 0 <= j < i && #[trigger] is_sep(ts, j) ==> j > 0 && !is_sep(ts, j - 1),
        decreases n - i,
    {
        let t = &toks[i];
        if d == 0 && is_punct_tok(t, COMMA) {
            assert(is_sep(ts, i as int));
            assert(t.text@[0] == COMMA);
            assert(!is_open((t.kind, t.text@)) && !is_close((t.kind, t.text@)));
            if start == i {
                if i > 0 {
                    assert(is_sep(ts, i - 1) && is_sep(ts, (i - 1) + 1));
                }
                return None;
            }
            assert(i > 0 && !is_sep(ts, i - 1));
            items.push((start, i));
            start = i + 1;
        } else {
            assert(!is_sep(ts, i as int));
            if opens(t) {
                d = d + 1;
            } else if closes(t) {
                assert(depth(ts, i + 1) >= 0);
                d = d - 1;
            }
        }
        i = i + 1;
    }
    if start < n {
        items.push((start, n));
    }
    assert(!has_empty_item(ts)) by {
        assert forall|j: int| is_sep(ts, j) implies !#[trigger] is_sep(ts, j + 1) by {
            if is_sep(ts, j + 1) {
                assert(0 <= j + 1 < n);
            }
        }
    }
    assert(items.len() > 0);
    Some(items)
}

/// The number of items before the first one that holds a `<=>`.
pub fn header_len(toks: &Vec<Token>, items: &Vec<(usize, usize)>) -> (h: usize)
    requires
        forall|k: int|
            0 <= k < items.len() ==> (#[trigger] items@[k]).0 < items@[k].1 <= toks.len(),
    ensures
        is_header_len(tviews(toks@), items@, h as int),
{
    let mut h: usize = 0;
    while h < items.len()
        invariant
            h <= items.len(),
            forall|k: int|
                0 <= k < items.len() ==> (#[trigger] items@[k]).0 < items@[k].1 <= toks.len(),
            forall|k: int| 0 <= k < h ==> !item_has_arrow(tviews(toks@), #[trigger] items@[k]),
        decreases items.len() - h,
    {
        match find_arrow(toks, items[h].0, items[h].1) {
            Some(_) => {
                return h;
            },
            None => {},
        }
        h = h + 1;
    }
    h
}

/// The first `<=>` in `toks[lo..hi]`.
pub fn find_arrow(toks: &Vec<Token>, lo: usize, hi: usize) -> (r: Option<usize>)
    requires
        lo <= hi <= toks.len(),
    ensures
        r matches Some(a) ==> lo <= a < hi && is_arrow_tok(tviews(toks@)[a as int])
            && forall|j: int| lo <= j < a ==> !is_arrow_tok(#[trigger] tviews(toks@)[j]),
        r is None ==> !item_has_arrow(tviews(toks@), (lo, hi)),
        r matches Some(a) ==> first_arrow(tviews(toks@), lo as int, hi as int) == Some(a as int),
        r is None ==> first_arrow(tviews(toks@), lo as int, hi as int) is None,
{
    let mut i = lo;
    while i < hi
        invariant
            lo <= i <= hi <= toks.len(),
            forall|j: int| lo <= j < i ==> !is_arrow_tok(#[trigger] tviews(toks@)[j]),
            first_arrow(tviews(toks@), i as int, hi as int) == first_arrow(
                tviews(toks@),
                lo as int,
                hi as int,
            ),
        decreases hi - i,
    {
        if is_arrow(&toks[i]) {
            return Some(i);
        }
        i = i + 1;
    }
    None
}

} // verus!
