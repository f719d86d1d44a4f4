use vstd::prelude::*;
use crate::context::{display_text, Value};
use crate::error::{ParseFailure, RenderFailure};
use crate::instr::Instr;
use crate::scanner::{byte_len, find_any, find_str, skip_spaces, starts_at};
use crate::template::{
    directive, loop_values, parse_block, parse_template, split_dots, Directive, render_each, render_instr, render_seq, Rendered,
};

verus! {

proof fn lemma_find_str_absent(s: Seq<char>, i: nat, d: Seq<char>)
    requires
        forall|j: int| i <= j < s.len() ==> !starts_at(s, j, d),
    ensures
        find_str(s, i, d) == s.len(),
    decreases s.len() - i,
{
    if i < s.len() {
        lemma_find_str_absent(s, i + 1, d);
    }
}

/// A text in which `{{` never occurs compiles, and renders back to itself
/// against any context.
pub proof fn law_plain_text_round_trip(s: Seq<char>, ctx: Map<Seq<char>, Value>)
    requires
        forall|i: int| 0 <= i < s.len() ==> !starts_at(s, i, "{{"@),
    ensures
        parse_template(s) matches Ok(m) && render_seq(m, ctx) == Ok::<Seq<char>, RenderFailure>(s),
{
    let e = Seq::<char>::empty();
    if s.len() == 0 {
        assert(s =~= e);
        assert(parse_block(s, 0, 0) == Ok::<(Seq<Instr>, nat), ParseFailure>((Seq::<Instr>::empty(), 0nat)));
        assert(render_seq(Seq::<Instr>::empty(), ctx) == Ok::<Seq<char>, RenderFailure>(e));
    } else {
        lemma_find_str_absent(s, 0, "{{"@);
        assert(s.subrange(0, s.len() as int) =~= s);
        let m = seq![Instr::Text(s)];
        assert(m + Seq::<Instr>::empty() =~= m);
        assert(parse_block(s, 0, 0) == Ok::<(Seq<Instr>, nat), ParseFailure>((m, s.len())));
        assert(m.drop_last() =~= Seq::<Instr>::empty());
        assert(render_seq(m.drop_last(), ctx) == Ok::<Seq<char>, RenderFailure>(e));
        assert(m.last() == Instr::Text(s));
        assert(render_instr(m.last(), ctx) == Ok::<Seq<char>, RenderFailure>(s));
        assert(e + s =~= s);
        assert(render_seq(m, ctx) == Ok::<Seq<char>, RenderFailure>(s));
    }
}

/// The body `{{ x }}` of a loop, as it compiles.
pub open spec fn echo_body(x: Seq<char>) -> Seq<Instr> {
    seq![Instr::Text(Seq::empty()), Instr::Parameter(seq![x]), Instr::Text(Seq::empty())]
}

/// The loop `{{ foreach x in arr }}{{ x }}{{ end }}` as it compiles.
pub open spec fn echo_loop(x: Seq<char>, arr: Seq<char>) -> Seq<Instr> {
    seq![Instr::Text(Seq::empty()), Instr::ForEach(x, arr, echo_body(x))]
}

/// The text `{{ foreach x in arr }}{{ x }}{{ end }}`.
#[verifier::opaque]
pub open spec fn echo_loop_text(x: Seq<char>, arr: Seq<char>) -> Seq<char> {
    "{{ foreach "@ + x + " in "@ + arr + " }}{{ "@ + x + " }}{{ end }}"@
}

/// A name that can stand as a loop variable and be echoed by `{{ x }}`: not
/// empty, free of spaces, closing braces and dots, and not starting with a
/// keyword.
pub open spec fn plain_name(x: Seq<char>) -> bool {
    &&& x.len() > 0
    &&& forall|i: int| 0 <= i < x.len() ==> x[i] != ' ' && x[i] != '}' && x[i] != '.'
    &&& !starts_at(x, 0, "foreach"@)
    &&& !starts_at(x, 0, "end"@)
}

/// A collection key: not empty, free of spaces and closing braces.
pub open spec fn plain_key(k: Seq<char>) -> bool {
    &&& k.len() > 0
    &&& forall|i: int| 0 <= i < k.len() ==> k[i] != ' ' && k[i] != '}'
}

proof fn lemma_skip_to(s: Seq<char>, i: int, j: int)
    requires
        0 <= i <= j <= s.len(),
        forall|k: int| i <= k < j ==> s[k] == ' ',
        j == s.len() || s[j] != ' ',
    ensures
        skip_spaces(s, i as nat) == j,
    decreases j - i,
{
    if i < j {
        lemma_skip_to(s, i + 1, j);
    }
}

proof fn lemma_find_any_to(s: Seq<char>, i: int, j: int, ds: Seq<char>)
    requires
        0 <= i <= j <= s.len(),
        forall|k: int| i <= k < j ==> !ds.contains(s[k]),
        j == s.len() || ds.contains(s[j]),
    ensures
        find_any(s, i as nat, ds) == j,
    decreases j - i,
{
    if i < j {
        lemma_find_any_to(s, i + 1, j, ds);
    }
}

proof fn lemma_split_no_dots(x: Seq<char>)
    requires
        forall|i: int| 0 <= i < x.len() ==> x[i] != '.',
    ensures
        split_dots(x) == seq![x],
    decreases x.len(),
{
    if x.len() > 0 {
        lemma_split_no_dots(x.drop_last());
        assert(x.drop_last().push(x.last()) =~= x);
    } else {
        assert(x =~= Seq::<char>::empty());
    }
}

proof fn lemma_echo_layout(x: Seq<char>, arr: Seq<char>)
    ensures
        ({
            let s = echo_loop_text(x, arr);
            let n = x.len() as int;
            let m = arr.len() as int;
            &&& s.len() == 33 + 2 * n + m
            &&& s.subrange(0, 11) == "{{ foreach "@
            &&& s.subrange(11, 11 + n) == x
            &&& s.subrange(11 + n, 15 + n) == " in "@
            &&& s.subrange(15 + n, 15 + n + m) == arr
            &&& s.subrange(15 + n + m, 21 + n + m) == " }}{{ "@
            &&& s.subrange(21 + n + m, 21 + 2 * n + m) == x
            &&& s.subrange(21 + 2 * n + m, 33 + 2 * n + m) == " }}{{ end }}"@
        }),
{
    reveal_strlit("{{ foreach ");
    reveal_strlit(" in ");
    reveal_strlit(" }}{{ ");
    reveal_strlit(" }}{{ end }}");
    reveal(echo_loop_text);
    let s = echo_loop_text(x, arr);
    let n = x.len() as int;
    let m = arr.len() as int;
    assert(s.subrange(0, 11) =~= "{{ foreach "@);
    assert(s.subrange(11, 11 + n) =~= x);
    assert(s.subrange(11 + n, 15 + n) =~= " in "@);
    assert(s.subrange(15 + n, 15 + n + m) =~= arr);
    assert(s.subrange(15 + n + m, 21 + n + m) =~= " }}{{ "@);
    assert(s.subrange(21 + n + m, 21 + 2 * n + m) =~= x);
    assert(s.subrange(21 + 2 * n + m, 33 + 2 * n + m) =~= " }}{{ end }}"@);
}

/// A character of `s` inside a stretch equal to `piece` is the matching character of `piece`.
proof fn lemma_piece(s: Seq<char>, a: int, b: int, piece: Seq<char>, k: int)
    requires
        0 <= a <= k < b <= s.len(),
        s.subrange(a, b) == piece,
    ensures
        s[k] == piece[k - a],
{
}

#[verifier::rlimit(80)]
proof fn lemma_echo_header(x: Seq<char>, arr: Seq<char>)
    requires
        plain_name(x),
        plain_key(arr),
    ensures
        ({
            let s = echo_loop_text(x, arr);
            let n = x.len() as int;
            let m = arr.len() as int;
            &&& find_str(s, 0, "{{"@) == 0
            &&& skip_spaces(s, 2) == 3
            &&& directive(s, 3) == Ok::<Directive, ParseFailure>(Directive::Open(x, arr, (18 + n + m) as nat))
        }),
{
    reveal_strlit("{{ foreach ");
    reveal_strlit(" in ");
    reveal_strlit(" }}{{ ");
    reveal_strlit("{{");
    reveal_strlit("}}");
    reveal_strlit("foreach");
    reveal_strlit("in");
    lemma_echo_layout(x, arr);
    let s = echo_loop_text(x, arr);
    let n = x.len() as int;
    let m = arr.len() as int;
    let h = "{{ foreach "@;
    let w = " in "@;
    let c = " }}{{ "@;
    assert forall|k: int| 0 <= k < 11 implies s[k] == h[k] by {
        lemma_piece(s, 0, 11, h, k);
    }
    assert forall|k: int| 11 + n <= k < 15 + n implies s[k] == w[k - 11 - n] by {
        lemma_piece(s, 11 + n, 15 + n, w, k);
    }
    assert forall|k: int| 15 + n + m <= k < 21 + n + m implies s[k] == c[k - 15 - n - m] by {
        lemma_piece(s, 15 + n + m, 21 + n + m, c, k);
    }
    assert forall|k: int| 11 <= k < 11 + n implies s[k] == x[k - 11] by {
        lemma_piece(s, 11, 11 + n, x, k);
    }
    assert forall|k: int| 15 + n <= k < 15 + n + m implies s[k] == arr[k - 15 - n] by {
        lemma_piece(s, 15 + n, 15 + n + m, arr, k);
    }
    assert(s.subrange(0, 2) =~= "{{"@);
    assert(starts_at(s, 0, "{{"@));
    assert(find_str(s, 0, "{{"@) == 0);
    lemma_skip_to(s, 2, 3);
    assert(s.subrange(3, 10) =~= "foreach"@);
    lemma_skip_to(s, 10, 11);
    let sp = seq![' '];
    let ds = seq![' ', '}'];
    assert(sp[0] == ' ');
    assert(ds[0] == ' ' && ds[1] == '}');
    assert forall|k: int| 11 <= k < 11 + n implies !sp.contains(s[k]) by {
        if sp.contains(s[k]) {
            let i = choose|i: int| 0 <= i < sp.len() && sp[i] == s[k];
        }
    }
    assert(sp.contains(s[11 + n]));
    lemma_find_any_to(s, 11, 11 + n, sp);
    lemma_skip_to(s, 11 + n, 12 + n);
    assert(s.subrange(12 + n, 14 + n) =~= "in"@);
    lemma_skip_to(s, 14 + n, 15 + n);
    assert forall|k: int| 15 + n <= k < 15 + n + m implies !ds.contains(s[k]) by {
        if ds.contains(s[k]) {
            let i = choose|i: int| 0 <= i < ds.len() && ds[i] == s[k];
        }
    }
    assert(ds.contains(s[15 + n + m]));
    lemma_find_any_to(s, 15 + n, 15 + n + m, ds);
    lemma_skip_to(s, 15 + n + m, 16 + n + m);
    assert(s.subrange(16 + n + m, 18 + n + m) =~= "}}"@);
    assert(starts_at(s, 3, "foreach"@));
    assert(starts_at(s, 12 + n, "in"@));
    assert(starts_at(s, 16 + n + m, "}}"@));
}

#[verifier::rlimit(80)]
proof fn lemma_echo_param(x: Seq<char>, arr: Seq<char>)
    requires
        plain_name(x),
        plain_key(arr),
    ensures
        ({
            let s = echo_loop_text(x, arr);
            let n = x.len() as int;
            let m = arr.len() as int;
            &&& find_str(s, (18 + n + m) as nat, "{{"@) == 18 + n + m
            &&& skip_spaces(s, (20 + n + m) as nat) == 21 + n + m
            &&& directive(s, (21 + n + m) as nat) == Ok::<Directive, ParseFailure>(
                Directive::Param(seq![x], (24 + 2 * n + m) as nat),
            )
        }),
{
    reveal_strlit(" }}{{ ");
    reveal_strlit(" }}{{ end }}");
    reveal_strlit("{{");
    reveal_strlit("}}");
    reveal_strlit("foreach");
    reveal_strlit("end");
    lemma_echo_layout(x, arr);
    let s = echo_loop_text(x, arr);
    let n = x.len() as int;
    let m = arr.len() as int;
    let c = " }}{{ "@;
    let t = " }}{{ end }}"@;
    let q = 18 + n + m;
    let p = q + 3;
    assert forall|k: int| 15 + n + m <= k < 21 + n + m implies s[k] == c[k - 15 - n - m] by {
        lemma_piece(s, 15 + n + m, 21 + n + m, c, k);
    }
    assert forall|k: int| p <= k < p + n implies s[k] == x[k - p] by {
        lemma_piece(s, p, p + n, x, k);
    }
    assert forall|k: int| p + n <= k < p + n + 12 implies s[k] == t[k - p - n] by {
        lemma_piece(s, p + n, p + n + 12, t, k);
    }
    assert(s.subrange(q, q + 2) =~= "{{"@);
    assert(starts_at(s, q, "{{"@));
    assert(find_str(s, q as nat, "{{"@) == q);
    lemma_skip_to(s, q + 2, p);
    assert(!starts_at(s, p, "foreach"@)) by {
        if starts_at(s, p, "foreach"@) {
            if n >= 7 {
                assert(x.subrange(0, 7) =~= s.subrange(p, p + 7));
            } else {
                assert(s.subrange(p, p + 7)[n] == ' ');
            }
        }
    }
    assert(!starts_at(s, p, "end"@)) by {
        if starts_at(s, p, "end"@) {
            if n >= 3 {
                assert(x.subrange(0, 3) =~= s.subrange(p, p + 3));
            } else {
                assert(s.subrange(p, p + 3)[n] == ' ');
            }
        }
    }
    let ds = seq![' ', '}'];
    assert(ds[0] == ' ' && ds[1] == '}');
    assert forall|k: int| p <= k < p + n implies !ds.contains(s[k]) by {
        if ds.contains(s[k]) {
            let i = choose|i: int| 0 <= i < ds.len() && ds[i] == s[k];
        }
    }
    assert(ds.contains(s[p + n]));
    lemma_find_any_to(s, p, p + n, ds);
    lemma_skip_to(s, p + n, p + n + 1);
    assert(s.subrange(p + n + 1, p + n + 3) =~= "}}"@);
    assert(starts_at(s, p + n + 1, "}}"@));
    assert(s.subrange(p, p + n) =~= x);
    lemma_split_no_dots(x);
}

#[verifier::rlimit(80)]
proof fn lemma_echo_close(x: Seq<char>, arr: Seq<char>)
    ensures
        ({
            let s = echo_loop_text(x, arr);
            let q = 24 + 2 * x.len() + arr.len();
            &&& s.len() == q + 9
            &&& find_str(s, q as nat, "{{"@) == q
            &&& skip_spaces(s, (q + 2) as nat) == q + 3
            &&& directive(s, (q + 3) as nat) == Ok::<Directive, ParseFailure>(Directive::Close(s.len()))
        }),
{
    reveal_strlit(" }}{{ end }}");
    reveal_strlit("{{");
    reveal_strlit("}}");
    reveal_strlit("foreach");
    reveal_strlit("end");
    lemma_echo_layout(x, arr);
    let s = echo_loop_text(x, arr);
    let n = x.len() as int;
    let m = arr.len() as int;
    let t = " }}{{ end }}"@;
    let b = 21 + 2 * n + m;
    let q = b + 3;
    assert forall|k: int| b <= k < b + 12 implies s[k] == t[k - b] by {
        lemma_piece(s, b, b + 12, t, k);
    }
    assert(s.subrange(q, q + 2) =~= "{{"@);
    assert(starts_at(s, q, "{{"@));
    assert(find_str(s, q as nat, "{{"@) == q);
    lemma_skip_to(s, q + 2, q + 3);
    assert(!starts_at(s, q + 3, "foreach"@));
    assert(s.subrange(q + 3, q + 6) =~= "end"@);
    assert(starts_at(s, q + 3, "end"@));
    lemma_skip_to(s, q + 6, q + 7);
    assert(s.subrange(q + 7, q + 9) =~= "}}"@);
    assert(starts_at(s, q + 7, "}}"@));
}

/// The loop body `{{ x }}{{ end }}` after the header compiles to `echo_body(x)`.
proof fn lemma_echo_inner(x: Seq<char>, arr: Seq<char>)
    requires
        plain_name(x),
        plain_key(arr),
    ensures
        parse_block(echo_loop_text(x, arr), (18 + x.len() + arr.len()) as nat, 1) == Ok::<
            (Seq<Instr>, nat),
            ParseFailure,
        >((echo_body(x), echo_loop_text(x, arr).len())),
{
    lemma_echo_param(x, arr);
    lemma_echo_close(x, arr);
    let s = echo_loop_text(x, arr);
    let e = Seq::<char>::empty();
    let q = (18 + x.len() + arr.len()) as nat;
    let q2 = (24 + 2 * x.len() + arr.len()) as nat;
    assert(s.subrange(q as int, q as int) =~= e);
    assert(s.subrange(q2 as int, q2 as int) =~= e);
    let t = Instr::Text(e);
    assert(parse_block(s, q2, 1) == Ok::<(Seq<Instr>, nat), ParseFailure>((seq![t], s.len())));
    assert(seq![t, Instr::Parameter(seq![x])] + seq![t] =~= echo_body(x));
}

/// The text `{{ foreach x in arr }}{{ x }}{{ end }}` compiles to the loop
/// that `echo_loop` describes, for every plain name and key.
pub proof fn law_echo_loop_compiles(x: Seq<char>, arr: Seq<char>)
    requires
        plain_name(x),
        plain_key(arr),
    ensures
        parse_template(echo_loop_text(x, arr)) == Ok::<Seq<Instr>, ParseFailure>(echo_loop(x, arr)),
{
    lemma_echo_header(x, arr);
    lemma_echo_inner(x, arr);
    lemma_echo_close(x, arr);
    let s = echo_loop_text(x, arr);
    let e = Seq::<char>::empty();
    assert(s.subrange(0, 0) =~= e);
    assert(parse_block(s, s.len(), 0) == Ok::<(Seq<Instr>, nat), ParseFailure>((Seq::<Instr>::empty(), s.len())));
    assert(echo_loop(x, arr) + Seq::<Instr>::empty() =~= echo_loop(x, arr));
}

/// The texts of `vals`, one after the other, with nothing between them.
pub open spec fn texts(vals: Seq<Value>) -> Seq<char>
    decreases vals.len(),
{
    if vals.len() == 0 {
        Seq::empty()
    } else {
        texts(vals.drop_last()) + display_text(vals.last())
    }
}

proof fn lemma_echo_body(x: Seq<char>, ctx: Map<Seq<char>, Value>, v: Value)
    ensures
        render_seq(echo_body(x), ctx.insert(x, v)) == Ok::<Seq<char>, RenderFailure>(display_text(v)),
{
    let e = Seq::<char>::empty();
    let t = Instr::Text(e);
    let p = Instr::Parameter(seq![x]);
    let c = ctx.insert(x, v);
    let b0 = Seq::<Instr>::empty();
    let b1 = seq![t];
    let b2 = seq![t, p];
    let b3 = seq![t, p, t];
    assert(render_seq(b0, c) == Ok::<Seq<char>, RenderFailure>(e));
    assert(b1.drop_last() =~= b0);
    assert(b1.last() == t);
    assert(render_instr(t, c) == Ok::<Seq<char>, RenderFailure>(e));
    assert(e + e =~= e);
    assert(render_seq(b1, c) == Ok::<Seq<char>, RenderFailure>(e));
    assert(seq![x].drop_first() =~= Seq::<Seq<char>>::empty());
    assert(render_instr(p, c) == Ok::<Seq<char>, RenderFailure>(display_text(v)));
    assert(b2.drop_last() =~= b1);
    assert(e + display_text(v) =~= display_text(v));
    assert(render_seq(b2, c) == Ok::<Seq<char>, RenderFailure>(display_text(v)));
    assert(b3.drop_last() =~= b2);
    assert(display_text(v) + e =~= display_text(v));
    assert(render_seq(b3, c) == Ok::<Seq<char>, RenderFailure>(display_text(v)));
}

proof fn lemma_echo_each(x: Seq<char>, ctx: Map<Seq<char>, Value>, vals: Seq<Value>)
    ensures
        render_each(echo_body(x), ctx, x, vals) == Ok::<Seq<char>, RenderFailure>(texts(vals)),
    decreases vals.len(),
{
    if vals.len() > 0 {
        lemma_echo_each(x, ctx, vals.drop_last());
        lemma_echo_body(x, ctx, vals.last());
    }
}

/// Looping over a collection with a body that only names the element renders
/// the elements' texts in their order, with nothing added between them.
pub proof fn law_loop_concatenates(x: Seq<char>, arr: Seq<char>, ctx: Map<Seq<char>, Value>)
    requires
        ctx.contains_key(arr),
        loop_values(ctx[arr]) is Some,
    ensures
        render_seq(echo_loop(x, arr), ctx) == Ok::<Seq<char>, RenderFailure>(
            texts(loop_values(ctx[arr])->Some_0),
        ),
{
    let vals = loop_values(ctx[arr])->Some_0;
    let e = Seq::<char>::empty();
    let body = echo_body(x);
    lemma_echo_each(x, ctx, vals);
    let m = echo_loop(x, arr);
    let m1 = seq![Instr::Text(e)];
    assert(render_seq(Seq::<Instr>::empty(), ctx) == Ok::<Seq<char>, RenderFailure>(e));
    assert(m1.drop_last() =~= Seq::<Instr>::empty());
    assert(m1.last() == Instr::Text(e));
    assert(render_instr(m1.last(), ctx) == Ok::<Seq<char>, RenderFailure>(e));
    assert(e + e =~= e);
    assert(render_seq(m1, ctx) == Ok::<Seq<char>, RenderFailure>(e));
    assert(render_instr(Instr::ForEach(x, arr, body), ctx) == Ok::<Seq<char>, RenderFailure>(texts(vals)));
    assert(m.drop_last() =~= m1);
    assert(e + texts(vals) =~= texts(vals));
}

/// For plain names, `{{ foreach x in arr }}{{ x }}{{ end }}` compiles, and
/// renders the texts of the collection's elements in order, with no
/// separator between them.
pub proof fn law_echo_loop_renders_elements(x: Seq<char>, arr: Seq<char>, ctx: Map<Seq<char>, Value>)
    requires
        plain_name(x),
        plain_key(arr),
        ctx.contains_key(arr),
        loop_values(ctx[arr]) is Some,
    ensures
        parse_template(echo_loop_text(x, arr)) matches Ok(m) && render_seq(m, ctx) == Ok::<
            Seq<char>,
            RenderFailure,
        >(texts(loop_values(ctx[arr])->Some_0)),
{
    law_echo_loop_compiles(x, arr);
    law_loop_concatenates(x, arr, ctx);
}

proof fn lemma_find_str_to(s: Seq<char>, i: int, j: int, d: Seq<char>)
    requires
        0 <= i <= j < s.len(),
        forall|k: int| i <= k < j ==> !starts_at(s, k, d),
        starts_at(s, j, d),
    ensures
        find_str(s, i as nat, d) == j,
    decreases j - i,
{
    if i < j {
        lemma_find_str_to(s, i + 1, j, d);
    }
}

/// True when every character of `w` is an ASCII space.
pub open spec fn all_spaces(w: Seq<char>) -> bool {
    forall|i: int| 0 <= i < w.len() ==> w[i] == ' '
}

/// The text `t`, then an `end` directive with the spaces `w1` and `w2`
/// around the word, then `rest`.
pub open spec fn end_after_text(t: Seq<char>, w1: Seq<char>, w2: Seq<char>, rest: Seq<char>) -> Seq<char> {
    t + "{{"@ + w1 + "end"@ + w2 + "}}"@ + rest
}

/// An `end` directive that closes no block fails compilation with an
/// `Unexpected` failure at the byte offset of the word `end`.
#[verifier::rlimit(80)]
pub proof fn law_unmatched_end(t: Seq<char>, w1: Seq<char>, w2: Seq<char>, rest: Seq<char>)
    requires
        forall|i: int| 0 <= i < t.len() ==> !starts_at(end_after_text(t, w1, w2, rest), i, "{{"@),
        all_spaces(w1),
        all_spaces(w2),
    ensures
        parse_template(end_after_text(t, w1, w2, rest)) == Err::<Seq<Instr>, ParseFailure>(
            ParseFailure::Unexpected(
                byte_len(end_after_text(t, w1, w2, rest).take(t.len() + 2int + w1.len())),
                "{{ end }} instruction"@,
            ),
        ),
{
    reveal_strlit("{{");
    reveal_strlit("}}");
    reveal_strlit("foreach");
    reveal_strlit("end");
    let s = end_after_text(t, w1, w2, rest);
    let l = t.len() as int;
    let a = w1.len() as int;
    let b = w2.len() as int;
    let e0 = l + 2 + a;
    let c0 = e0 + 3 + b;
    assert(s.subrange(l, l + 2) =~= "{{"@);
    assert(s.subrange(l + 2, e0) =~= w1);
    assert(s.subrange(e0, e0 + 3) =~= "end"@);
    assert(s.subrange(e0 + 3, c0) =~= w2);
    assert(s.subrange(c0, c0 + 2) =~= "}}"@);
    assert forall|k: int| l + 2 <= k < e0 implies s[k] == ' ' by {
        lemma_piece(s, l + 2, e0, w1, k);
    }
    assert forall|k: int| e0 + 3 <= k < c0 implies s[k] == ' ' by {
        lemma_piece(s, e0 + 3, c0, w2, k);
    }
    lemma_piece(s, e0, e0 + 3, "end"@, e0);
    lemma_piece(s, c0, c0 + 2, "}}"@, c0);
    assert(starts_at(s, l, "{{"@));
    lemma_find_str_to(s, 0, l, "{{"@);
    lemma_skip_to(s, l + 2, e0);
    assert(starts_at(s, e0, "end"@));
    assert(!starts_at(s, e0, "foreach"@)) by {
        if starts_at(s, e0, "foreach"@) {
            assert(s.subrange(e0, e0 + 7)[0] == 'e');
        }
    }
    lemma_skip_to(s, e0 + 3, c0);
    assert(starts_at(s, c0, "}}"@));
}

/// The text `t`, then a `foreach` header whose binding name `x` stands between
/// the spaces `w2` and `w3`, then `after`.
pub open spec fn foreach_header(
    t: Seq<char>,
    w1: Seq<char>,
    w2: Seq<char>,
    x: Seq<char>,
    w3: Seq<char>,
    after: Seq<char>,
) -> Seq<char> {
    t + "{{"@ + w1 + "foreach"@ + w2 + x + w3 + after
}

/// A `foreach` header without `in` after its binding name fails compilation
/// with `Expected("in")` at the byte offset just past the name and the spaces
/// after it.
#[verifier::rlimit(80)]
pub proof fn law_missing_in(
    t: Seq<char>,
    w1: Seq<char>,
    w2: Seq<char>,
    x: Seq<char>,
    w3: Seq<char>,
    after: Seq<char>,
)
    requires
        forall|i: int|
            0 <= i < t.len() ==> !starts_at(foreach_header(t, w1, w2, x, w3, after), i, "{{"@),
        all_spaces(w1),
        all_spaces(w2),
        w2.len() > 0,
        all_spaces(w3),
        w3.len() > 0,
        x.len() > 0,
        forall|i: int| 0 <= i < x.len() ==> x[i] != ' ',
        after.len() == 0 || after[0] != ' ',
        !starts_at(after, 0, "in"@),
    ensures
        parse_template(foreach_header(t, w1, w2, x, w3, after)) == Err::<Seq<Instr>, ParseFailure>(
            ParseFailure::Expected(
                byte_len(
                    foreach_header(t, w1, w2, x, w3, after).take(
                        t.len() + 9int + w1.len() + w2.len() + x.len() + w3.len(),
                    ),
                ),
                "in"@,
            ),
        ),
{
    reveal_strlit("{{");
    reveal_strlit("foreach");
    reveal_strlit("in");
    let s = foreach_header(t, w1, w2, x, w3, after);
    let l = t.len() as int;
    let f0 = l + 2 + w1.len();
    let n0 = f0 + 7 + w2.len();
    let n1 = n0 + x.len();
    let c = n1 + w3.len();
    assert(s.len() == c + after.len());
    assert(s.subrange(l, l + 2) =~= "{{"@);
    assert(s.subrange(l + 2, f0) =~= w1);
    assert(s.subrange(f0, f0 + 7) =~= "foreach"@);
    assert(s.subrange(f0 + 7, n0) =~= w2);
    assert(s.subrange(n0, n1) =~= x);
    assert(s.subrange(n1, c) =~= w3);
    assert(s.subrange(c, s.len() as int) =~= after);
    assert forall|k: int| l + 2 <= k < f0 implies s[k] == ' ' by {
        lemma_piece(s, l + 2, f0, w1, k);
    }
    assert forall|k: int| f0 + 7 <= k < n0 implies s[k] == ' ' by {
        lemma_piece(s, f0 + 7, n0, w2, k);
    }
    assert forall|k: int| n0 <= k < n1 implies s[k] == x[k - n0] by {
        lemma_piece(s, n0, n1, x, k);
    }
    assert forall|k: int| n1 <= k < c implies s[k] == ' ' by {
        lemma_piece(s, n1, c, w3, k);
    }
    lemma_piece(s, f0, f0 + 7, "foreach"@, f0);
    if after.len() > 0 {
        lemma_piece(s, c, s.len() as int, after, c);
    }
    assert(starts_at(s, l, "{{"@));
    lemma_find_str_to(s, 0, l, "{{"@);
    lemma_skip_to(s, l + 2, f0);
    assert(starts_at(s, f0, "foreach"@));
    lemma_skip_to(s, f0 + 7, n0);
    let sp = seq![' '];
    assert(sp[0] == ' ');
    assert forall|k: int| n0 <= k < n1 implies !sp.contains(s[k]) by {
        if sp.contains(s[k]) {
            let i = choose|i: int| 0 <= i < sp.len() && sp[i] == s[k];
        }
    }
    assert(sp.contains(s[n1]));
    lemma_find_any_to(s, n0, n1, sp);
    lemma_skip_to(s, n1, c);
    assert(!starts_at(s, c, "in"@)) by {
        if starts_at(s, c, "in"@) {
            assert(after.subrange(0, 2) =~= s.subrange(c, c + 2));
        }
    }
}

/// The outer body `u{{ foreach b in key }}...{{ end }}v` of a nested loop.
pub open spec fn outer_body(u: Seq<char>, b: Seq<char>, key: Seq<char>, body: Seq<Instr>, v: Seq<char>) -> Seq<Instr> {
    seq![Instr::Text(u), Instr::ForEach(b, key, body), Instr::Text(v)]
}

/// The rows of a nested loop: for each outer value in turn, `u`, then the
/// whole inner loop over `ys` with the outer value bound to `a`, then `v`.
pub open spec fn rows(
    u: Seq<char>,
    body: Seq<Instr>,
    v: Seq<char>,
    ctx: Map<Seq<char>, Value>,
    a: Seq<char>,
    xs: Seq<Value>,
    b: Seq<char>,
    ys: Seq<Value>,
) -> Rendered
    decreases xs.len(),
{
    if xs.len() == 0 {
        Ok(Seq::empty())
    } else {
        match rows(u, body, v, ctx, a, xs.drop_last(), b, ys) {
            Err(e) => Err(e),
            Ok(done) => match render_each(body, ctx.insert(a, xs.last()), b, ys) {
                Err(e) => Err(e),
                Ok(row) => Ok(done + (u + row + v)),
            },
        }
    }
}

proof fn lemma_outer_body(
    u: Seq<char>,
    b: Seq<char>,
    key: Seq<char>,
    body: Seq<Instr>,
    v: Seq<char>,
    c: Map<Seq<char>, Value>,
)
    requires
        c.contains_key(key),
        loop_values(c[key]) is Some,
    ensures
        render_seq(outer_body(u, b, key, body, v), c) == match render_each(body, c, b, loop_values(c[key])->Some_0) {
            Err(e) => Err::<Seq<char>, RenderFailure>(e),
            Ok(row) => Ok(u + row + v),
        },
{
    let e = Seq::<char>::empty();
    let m = outer_body(u, b, key, body, v);
    let m1 = seq![Instr::Text(u)];
    let m2 = seq![Instr::Text(u), Instr::ForEach(b, key, body)];
    assert(render_seq(Seq::<Instr>::empty(), c) == Ok::<Seq<char>, RenderFailure>(e));
    assert(m1.drop_last() =~= Seq::<Instr>::empty());
    assert(m1.last() == Instr::Text(u));
    assert(render_instr(Instr::Text(u), c) == Ok::<Seq<char>, RenderFailure>(u));
    assert(e + u =~= u);
    assert(render_seq(m1, c) == Ok::<Seq<char>, RenderFailure>(u));
    assert(m2.drop_last() =~= m1);
    assert(m2.last() == Instr::ForEach(b, key, body));
    assert(m.drop_last() =~= m2);
    assert(m.last() == Instr::Text(v));
    assert(render_instr(Instr::Text(v), c) == Ok::<Seq<char>, RenderFailure>(v));
    let ys = loop_values(c[key])->Some_0;
    assert(render_instr(Instr::ForEach(b, key, body), c) == render_each(body, c, b, ys));
    match render_each(body, c, b, ys) {
        Ok(row) => {
            assert(render_seq(m2, c) == Ok::<Seq<char>, RenderFailure>(u + row));
        },
        Err(err) => {
            assert(render_seq(m2, c) == Err::<Seq<char>, RenderFailure>(err));
        },
    }
}

proof fn lemma_rows(
    u: Seq<char>,
    body: Seq<Instr>,
    v: Seq<char>,
    ctx: Map<Seq<char>, Value>,
    a: Seq<char>,
    xs: Seq<Value>,
    b: Seq<char>,
    key: Seq<char>,
)
    requires
        key != a,
        ctx.contains_key(key),
        loop_values(ctx[key]) is Some,
    ensures
        render_each(outer_body(u, b, key, body, v), ctx, a, xs) == rows(
            u,
            body,
            v,
            ctx,
            a,
            xs,
            b,
            loop_values(ctx[key])->Some_0,
        ),
    decreases xs.len(),
{
    if xs.len() > 0 {
        lemma_rows(u, body, v, ctx, a, xs.drop_last(), b, key);
        let c = ctx.insert(a, xs.last());
        assert(c[key] == ctx[key]);
        lemma_outer_body(u, b, key, body, v, c);
    }
}

/// A loop inside a loop renders, for each outer element in turn, the text
/// before the inner loop, the whole inner loop, and the text after it, before
/// it moves to the next outer element; the inner collection is not the outer
/// loop's own variable.
pub proof fn law_nested_loops_row_major(
    a: Seq<char>,
    outer: Seq<char>,
    u: Seq<char>,
    b: Seq<char>,
    inner: Seq<char>,
    body: Seq<Instr>,
    v: Seq<char>,
    ctx: Map<Seq<char>, Value>,
)
    requires
        inner != a,
        ctx.contains_key(outer),
        loop_values(ctx[outer]) is Some,
        ctx.contains_key(inner),
        loop_values(ctx[inner]) is Some,
    ensures
        render_instr(Instr::ForEach(a, outer, outer_body(u, b, inner, body, v)), ctx) == rows(
            u,
            body,
            v,
            ctx,
            a,
            loop_values(ctx[outer])->Some_0,
            b,
            loop_values(ctx[inner])->Some_0,
        ),
{
    lemma_rows(u, body, v, ctx, a, loop_values(ctx[outer])->Some_0, b, inner);
}

/// A parameter directive naming the path text `q`, with the spaces `w1` and
/// `w2` inside its braces.
pub open spec fn param_text(w1: Seq<char>, q: Seq<char>, w2: Seq<char>) -> Seq<char> {
    "{{"@ + w1 + q + w2 + "}}"@
}

/// `{{ q }}` for a path text `q` whose first name is not bound in `ctx`
/// compiles, and rendering it fails with the whole dot-separated path.
#[verifier::rlimit(80)]
pub proof fn law_unbound_parameter_text(
    w1: Seq<char>,
    q: Seq<char>,
    w2: Seq<char>,
    ctx: Map<Seq<char>, Value>,
)
    requires
        all_spaces(w1),
        all_spaces(w2),
        q.len() > 0,
        forall|i: int| 0 <= i < q.len() ==> q[i] != ' ' && q[i] != '}',
        !starts_at(q, 0, "foreach"@),
        !starts_at(q, 0, "end"@),
        !ctx.contains_key(split_dots(q)[0]),
    ensures
        parse_template(param_text(w1, q, w2)) matches Ok(m) && render_seq(m, ctx) == Err::<
            Seq<char>,
            RenderFailure,
        >(RenderFailure::CannotResolve(split_dots(q))),
{
    reveal_strlit("{{");
    reveal_strlit("}}");
    reveal_strlit("foreach");
    reveal_strlit("end");
    let s = param_text(w1, q, w2);
    let e = Seq::<char>::empty();
    let p = 2 + w1.len() as int;
    let a = p + q.len();
    let b = a + w2.len();
    assert(s.len() == b + 2);
    assert(s.subrange(0, 2) =~= "{{"@);
    assert(s.subrange(2, p) =~= w1);
    assert(s.subrange(p, a) =~= q);
    assert(s.subrange(a, b) =~= w2);
    assert(s.subrange(b, b + 2) =~= "}}"@);
    assert forall|k: int| 2 <= k < p implies s[k] == ' ' by {
        lemma_piece(s, 2, p, w1, k);
    }
    assert forall|k: int| p <= k < a implies s[k] == q[k - p] by {
        lemma_piece(s, p, a, q, k);
    }
    assert forall|k: int| a <= k < b implies s[k] == ' ' by {
        lemma_piece(s, a, b, w2, k);
    }
    assert forall|k: int| b <= k < b + 2 implies s[k] == '}' by {
        lemma_piece(s, b, b + 2, "}}"@, k);
    }
    assert(starts_at(s, 0, "{{"@));
    assert(find_str(s, 0, "{{"@) == 0);
    assert(s.subrange(0, 0) =~= e);
    lemma_skip_to(s, 2, p);
    assert(!starts_at(s, p, "foreach"@)) by {
        if starts_at(s, p, "foreach"@) {
            if q.len() >= 7 {
                assert(q.subrange(0, 7) =~= s.subrange(p, p + 7));
            } else {
                assert(s.subrange(p, p + 7)[q.len() as int] == s[a]);
            }
        }
    }
    assert(!starts_at(s, p, "end"@)) by {
        if starts_at(s, p, "end"@) {
            if q.len() >= 3 {
                assert(q.subrange(0, 3) =~= s.subrange(p, p + 3));
            } else {
                assert(s.subrange(p, p + 3)[q.len() as int] == s[a]);
            }
        }
    }
    let ds = seq![' ', '}'];
    assert(ds[0] == ' ' && ds[1] == '}');
    assert forall|k: int| p <= k < a implies !ds.contains(s[k]) by {
        if ds.contains(s[k]) {
            let i = choose|i: int| 0 <= i < ds.len() && ds[i] == s[k];
        }
    }
    assert(ds.contains(s[a]));
    lemma_find_any_to(s, p, a, ds);
    lemma_skip_to(s, a, b);
    assert(starts_at(s, b, "}}"@));
    let path = split_dots(q);
    let m = seq![Instr::Text(e), Instr::Parameter(path)];
    assert(parse_block(s, s.len(), 0) == Ok::<(Seq<Instr>, nat), ParseFailure>((Seq::<Instr>::empty(), s.len())));
    assert(m + Seq::<Instr>::empty() =~= m);
    assert(parse_template(s) == Ok::<Seq<Instr>, ParseFailure>(m));
    crate::template::lemma_split_dots_nonempty(q);
    law_unbound_name_cannot_resolve(path, ctx);
    let m1 = seq![Instr::Text(e)];
    assert(m1.drop_last() =~= Seq::<Instr>::empty());
    assert(m1.last() == Instr::Text(e));
    assert(render_seq(Seq::<Instr>::empty(), ctx) == Ok::<Seq<char>, RenderFailure>(e));
    assert(render_instr(m1.last(), ctx) == Ok::<Seq<char>, RenderFailure>(e));
    assert(render_seq(m1, ctx) is Ok);
    assert(m.drop_last() =~= m1);
    assert(m.last() == Instr::Parameter(path));
}

/// A path whose first name is not bound fails with that whole path.
pub proof fn law_unbound_name_cannot_resolve(path: Seq<Seq<char>>, ctx: Map<Seq<char>, Value>)
    requires
        path.len() > 0,
        !ctx.contains_key(path[0]),
    ensures
        render_instr(Instr::Parameter(path), ctx) == Err::<Seq<char>, RenderFailure>(
            RenderFailure::CannotResolve(path),
        ),
{
}

} // verus!
