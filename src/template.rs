use vstd::prelude::*;
use crate::context::{contexts_view, display_text, lemma_contexts_view, strs_view, TemplateContext, TemplateValue, Value};
use crate::error::{ParseError, ParseFailure, RenderError, RenderFailure};
use crate::instr::{instrs_view, lemma_instrs_view_push, strings_view, Instr, Instruction};
use crate::scanner::{
    byte_len, find_any, find_str, lemma_find_any_bounds, lemma_find_str_bounds,
    lemma_skip_spaces_bounds, skip_spaces, starts_at, Scanner,
};

verus! {

broadcast use vstd::std_specs::vec::group_vec_axioms;

// ---------------------------------------------------------------------------
// The template grammar
// ---------------------------------------------------------------------------

/// A directive header, with the character position just past its closing braces.
pub ghost enum Directive {
    /// `foreach <name> in <key>`
    Open(Seq<char>, Seq<char>, nat),
    /// `end`
    Close(nat),
    /// a dot-separated path
    Param(Seq<Seq<char>>, nat),
}

/// A failure at character position `p` of `s`, reported as a byte offset.
pub open spec fn expected_at(s: Seq<char>, p: nat, token: Seq<char>) -> ParseFailure {
    ParseFailure::Expected(byte_len(s.take(p as int)), token)
}

/// The segments of `s` between dots; an empty text is one empty segment.
pub open spec fn split_dots(s: Seq<char>) -> Seq<Seq<char>>
    decreases s.len(),
{
    if s.len() == 0 {
        seq![Seq::empty()]
    } else {
        let rest = split_dots(s.drop_last());
        if s.last() == '.' {
            rest.push(Seq::empty())
        } else {
            rest.update(rest.len() - 1, rest.last().push(s.last()))
        }
    }
}

pub proof fn lemma_split_dots_nonempty(s: Seq<char>)
    ensures
        split_dots(s).len() >= 1,
    decreases s.len(),
{
    if s.len() > 0 {
        lemma_split_dots_nonempty(s.drop_last());
    }
}

/// The directive whose name starts at `p`, just inside the opening braces.
pub open spec fn directive(s: Seq<char>, p: nat) -> Result<Directive, ParseFailure> {
    if starts_at(s, p as int, "foreach"@) {
        let a = skip_spaces(s, p + 7);
        let b = find_any(s, a, seq![' ']);
        let c = skip_spaces(s, b);
        if !starts_at(s, c as int, "in"@) {
            Err(expected_at(s, c, "in"@))
        } else {
            let d = skip_spaces(s, c + 2);
            let e = find_any(s, d, seq![' ', '}']);
            let f = skip_spaces(s, e);
            if e == d {
                Err(expected_at(s, f, "collection"@))
            } else if !starts_at(s, f as int, "}}"@) {
                Err(expected_at(s, f, "}}"@))
            } else {
                Ok(Directive::Open(s.subrange(a as int, b as int), s.subrange(d as int, e as int), f + 2))
            }
        }
    } else if starts_at(s, p as int, "end"@) {
        let a = skip_spaces(s, p + 3);
        if !starts_at(s, a as int, "}}"@) {
            Err(expected_at(s, a, "}}"@))
        } else {
            Ok(Directive::Close(a + 2))
        }
    } else {
        let a = find_any(s, p, seq![' ', '}']);
        let b = skip_spaces(s, a);
        if !starts_at(s, b as int, "}}"@) {
            Err(expected_at(s, b, "}}"@))
        } else {
            Ok(Directive::Param(split_dots(s.subrange(p as int, a as int)), b + 2))
        }
    }
}

/// A block's instructions and the position after it.
pub type Parsed = Result<(Seq<Instr>, nat), ParseFailure>;

/// `r` with `items` in front of its instructions.
pub open spec fn prepend(items: Seq<Instr>, r: Parsed) -> Parsed {
    match r {
        Ok((m, q)) => Ok((items + m, q)),
        Err(e) => Err(e),
    }
}

/// The end of the text reached inside a block of nesting depth `level`:
/// only the top level may end there.
pub open spec fn end_of_input(s: Seq<char>, pos: nat, level: nat) -> Parsed {
    if level == 0 {
        Ok((Seq::empty(), pos))
    } else {
        Err(expected_at(s, pos, "{{ end }}"@))
    }
}

/// The instructions of the block at nesting depth `level` that starts at
/// character position `pos` of `s`, up to and including its `end` directive
/// (for `level > 0`) or the end of the text (for `level == 0`).
///
/// Every directive ends past the position where its block step began; the
/// comparisons with `pos` state this, and keep the definition well founded.
pub open spec fn parse_block(s: Seq<char>, pos: nat, level: nat) -> Parsed
    decreases s.len() - pos,
{
    if pos >= s.len() {
        end_of_input(s, pos, level)
    } else {
        let t = find_str(s, pos, "{{"@);
        let text = Instr::Text(s.subrange(pos as int, t as int));
        if t >= s.len() {
            prepend(seq![text], end_of_input(s, t, level))
        } else {
            let p = skip_spaces(s, t + 2);
            match directive(s, p) {
                Err(e) => Err(e),
                Ok(Directive::Close(q)) => {
                    if level == 0 {
                        Err(ParseFailure::Unexpected(byte_len(s.take(p as int)), "{{ end }} instruction"@))
                    } else {
                        Ok((seq![text], q))
                    }
                },
                Ok(Directive::Param(path, q)) => {
                    if pos < q <= s.len() {
                        prepend(seq![text, Instr::Parameter(path)], parse_block(s, q, level))
                    } else {
                        Err(expected_at(s, q, "}}"@))
                    }
                },
                Ok(Directive::Open(name, key, q)) => {
                    if pos < q <= s.len() {
                        match parse_block(s, q, level + 1) {
                            Err(e) => Err(e),
                            Ok((body, r)) => {
                                if pos < r <= s.len() {
                                    prepend(
                                        seq![text, Instr::ForEach(name, key, body)],
                                        parse_block(s, r, level),
                                    )
                                } else {
                                    Err(expected_at(s, r, "{{ end }}"@))
                                }
                            },
                        }
                    } else {
                        Err(expected_at(s, q, "}}"@))
                    }
                },
            }
        }
    }
}

/// The instructions that the text `s` compiles to.
pub open spec fn parse_template(s: Seq<char>) -> Result<Seq<Instr>, ParseFailure> {
    match parse_block(s, 0, 0) {
        Ok((m, _)) => Ok(m),
        Err(e) => Err(e),
    }
}

proof fn lemma_prepend_prepend(a: Seq<Instr>, b: Seq<Instr>, r: Parsed)
    ensures
        prepend(a, prepend(b, r)) == prepend(a + b, r),
{
    if let Ok((m, q)) = r {
        assert(a + (b + m) =~= (a + b) + m);
    }
}

proof fn lemma_find_str_found(s: Seq<char>, i: nat, d: Seq<char>)
    ensures
        find_str(s, i, d) < s.len() ==> starts_at(s, find_str(s, i, d) as int, d),
    decreases s.len() - i,
{
    if i < s.len() && !starts_at(s, i as int, d) {
        lemma_find_str_found(s, i + 1, d);
    }
}

/// Splits `text` at each dot.
fn split_path(text: &str) -> (r: Vec<String>)
    ensures
        strings_view(r@) == split_dots(text@),
{
    let n = text.unicode_len();
    let mut segs: Vec<String> = Vec::new();
    let mut start: usize = 0;
    let mut i: usize = 0;
    assert(text@.take(0) =~= Seq::<char>::empty());
    assert(strings_view(segs@).push(text@.subrange(0, 0)) =~= split_dots(text@.take(0)));
    while i < n
        invariant
            n == text@.len(),
            start <= i <= n,
            strings_view(segs@).push(text@.subrange(start as int, i as int)) == split_dots(
                text@.take(i as int),
            ),
        decreases n - i,
    {
        let ghost prev = segs@;
        assert(text@.take(i + 1).drop_last() =~= text@.take(i as int));
        proof {
            lemma_split_dots_nonempty(text@.take(i as int));
            assert(text@.subrange(start as int, i + 1) =~= text@.subrange(start as int, i as int).push(text@[i as int]));
            assert(text@.subrange(i + 1, i + 1) =~= Seq::<char>::empty());
        }
        if text.get_char(i) == '.' {
            let seg = text.substring_char(start, i).to_owned();
            segs.push(seg);
            assert(segs@ =~= prev.push(seg));
            assert(strings_view(segs@) =~= strings_view(prev).push(text@.subrange(start as int, i as int)));
            start = i + 1;
            assert(strings_view(segs@).push(text@.subrange(start as int, i + 1)) =~= split_dots(
                text@.take(i + 1),
            ));
        } else {
            assert(strings_view(segs@).push(text@.subrange(start as int, i + 1)) =~= split_dots(
                text@.take(i + 1),
            ));
        }
        i = i + 1;
    }
    let ghost prev = segs@;
    let seg = text.substring_char(start, n).to_owned();
    segs.push(seg);
    assert(segs@ =~= prev.push(seg));
    assert(text@.take(n as int) =~= text@);
    assert(strings_view(segs@) =~= strings_view(prev).push(text@.subrange(start as int, n as int)));
    segs
}


// ---------------------------------------------------------------------------
// Rendering
// ---------------------------------------------------------------------------

/// The value that `segs` leads to from `v`: each segment is looked up in a
/// nested context, and a value that is not a context ends the walk. A segment
/// that a nested context does not bind fails the whole lookup, wherever it
/// stands in the path.
pub open spec fn descend(v: Value, segs: Seq<Seq<char>>) -> Option<Value>
    decreases segs.len(),
{
    if segs.len() == 0 {
        Some(v)
    } else {
        match v {
            Value::Sub(m) => if m.contains_key(segs[0]) {
                descend(m[segs[0]], segs.drop_first())
            } else {
                None
            },
            Value::SubRef(m) => if m.contains_key(segs[0]) {
                descend(m[segs[0]], segs.drop_first())
            } else {
                None
            },
            _ => Some(v),
        }
    }
}

/// The value that `path` names in `ctx`, if any.
pub open spec fn resolve(ctx: Map<Seq<char>, Value>, path: Seq<Seq<char>>) -> Option<Value> {
    if path.len() == 0 || !ctx.contains_key(path[0]) {
        None
    } else {
        descend(ctx[path[0]], path.drop_first())
    }
}

/// The values that a loop over `v` binds, in order, if `v` is a collection.
pub open spec fn loop_values(v: Value) -> Option<Seq<Value>> {
    match v {
        Value::StrArr(items) => Some(items.map_values(|x: Seq<char>| Value::Str(x))),
        Value::ObjArr(objs) => Some(objs.map_values(|m: Map<Seq<char>, Value>| Value::SubRef(m))),
        _ => None,
    }
}

pub type Rendered = Result<Seq<char>, RenderFailure>;

/// The output of `instrs` against `ctx`: the outputs of the instructions in
/// order, or the first failure.
pub open spec fn render_seq(instrs: Seq<Instr>, ctx: Map<Seq<char>, Value>) -> Rendered
    decreases instrs, 0nat,
{
    if instrs.len() == 0 {
        Ok(Seq::empty())
    } else {
        match render_seq(instrs.drop_last(), ctx) {
            Err(e) => Err(e),
            Ok(a) => match render_instr(instrs.last(), ctx) {
                Err(e) => Err(e),
                Ok(b) => Ok(a + b),
            },
        }
    }
}

/// The output of one instruction against `ctx`.
pub open spec fn render_instr(i: Instr, ctx: Map<Seq<char>, Value>) -> Rendered
    decreases i, 0nat,
{
    match i {
        Instr::Text(t) => Ok(t),
        Instr::Parameter(path) => match resolve(ctx, path) {
            Some(v) => Ok(display_text(v)),
            None => Err(RenderFailure::CannotResolve(path)),
        },
        Instr::ForEach(name, key, body) => {
            let vals = if ctx.contains_key(key) {
                loop_values(ctx[key])
            } else {
                None
            };
            match vals {
                Some(vs) => render_each(body, ctx, name, vs),
                None => Err(RenderFailure::CannotIterate(key)),
            }
        },
    }
}

/// The outputs of `body`, once for each of `vals` bound to `name` over `ctx`,
/// in order, or the first failure.
pub open spec fn render_each(
    body: Seq<Instr>,
    ctx: Map<Seq<char>, Value>,
    name: Seq<char>,
    vals: Seq<Value>,
) -> Rendered
    decreases body, vals.len(),
{
    if vals.len() == 0 {
        Ok(Seq::empty())
    } else {
        match render_each(body, ctx, name, vals.drop_last()) {
            Err(e) => Err(e),
            Ok(a) => match render_seq(body, ctx.insert(name, vals.last())) {
                Err(e) => Err(e),
                Ok(b) => Ok(a + b),
            },
        }
    }
}

proof fn lemma_render_seq_prefix(v: Seq<Instruction>, k: int, ctx: Map<Seq<char>, Value>)
    requires
        0 <= k <= v.len(),
        render_seq(instrs_view(v.take(k)), ctx) is Err,
    ensures
        render_seq(instrs_view(v), ctx) == render_seq(instrs_view(v.take(k)), ctx),
    decreases v.len(),
{
    if k == v.len() {
        assert(v.take(k) =~= v);
    } else {
        let w = v.drop_last();
        assert(w.take(k) =~= v.take(k));
        lemma_render_seq_prefix(w, k, ctx);
        assert(instrs_view(v).drop_last() =~= instrs_view(w));
    }
}

proof fn lemma_render_each_prefix(
    body: Seq<Instr>,
    ctx: Map<Seq<char>, Value>,
    name: Seq<char>,
    vals: Seq<Value>,
    k: int,
)
    requires
        0 <= k <= vals.len(),
        render_each(body, ctx, name, vals.take(k)) is Err,
    ensures
        render_each(body, ctx, name, vals) == render_each(body, ctx, name, vals.take(k)),
    decreases vals.len(),
{
    if k == vals.len() {
        assert(vals.take(k) =~= vals);
    } else {
        let w = vals.drop_last();
        assert(w.take(k) =~= vals.take(k));
        lemma_render_each_prefix(body, ctx, name, w, k);
    }
}

/// A copy of each string of `v`.
fn copy_strings(v: &Vec<String>) -> (r: Vec<String>)
    ensures
        strings_view(r@) == strings_view(v@),
{
    let mut r: Vec<String> = Vec::new();
    let mut i: usize = 0;
    while i < v.len()
        invariant
            i <= v@.len(),
            r@.len() == i,
            forall|k: int| 0 <= k < i ==> #[trigger] r@[k]@ == v@[k]@,
        decreases v@.len() - i,
    {
        let x = v[i].clone();
        r.push(x);
        i = i + 1;
    }
    assert(strings_view(r@) =~= strings_view(v@));
    r
}

/// The value that `path` names in `ctx`.
fn resolve_path<'c, 'a>(ctx: &'c TemplateContext<'a>, path: &Vec<String>) -> (r: Option<&'c TemplateValue<'a>>)
    ensures
        match resolve(ctx@, strings_view(path@)) {
            Some(v) => r matches Some(x) && x.view() == v,
            None => r is None,
        },
{
    let ghost sv = strings_view(path@);
    if path.len() == 0 {
        return None;
    }
    let mut cur = match ctx.get_value(path[0].as_str()) {
        Some(v) => v,
        None => return None,
    };
    let mut idx: usize = 1;
    assert(sv.subrange(1, sv.len() as int) =~= sv.drop_first());
    while idx < path.len()
        invariant
            1 <= idx <= path@.len(),
            sv == strings_view(path@),
            ctx@.contains_key(sv[0]),
            descend(cur.view(), sv.subrange(idx as int, sv.len() as int)) == descend(
                ctx@[sv[0]],
                sv.drop_first(),
            ),
        decreases path@.len() - idx,
    {
        let ghost segs = sv.subrange(idx as int, sv.len() as int);
        assert(segs.drop_first() =~= sv.subrange(idx + 1, sv.len() as int));
        assert(segs[0] == path@[idx as int]@);
        match cur {
            TemplateValue::SubContext(c) => match c.get_value(path[idx].as_str()) {
                Some(v) => {
                    cur = v;
                },
                None => {
                    return None;
                },
            },
            TemplateValue::SubContextRef(c) => match c.get_value(path[idx].as_str()) {
                Some(v) => {
                    cur = v;
                },
                None => {
                    return None;
                },
            },
            _ => {
                return Some(cur);
            },
        }
        idx = idx + 1;
    }
    Some(cur)
}

// ---------------------------------------------------------------------------
// Compiled templates
// ---------------------------------------------------------------------------

/// A compiled template.
#[derive(Debug)]
pub struct Template {
    instructions: Vec<Instruction>,
}

impl Template {
    pub closed spec fn view(&self) -> Seq<Instr> {
        instrs_view(self.instructions@)
    }

    /// Compiles `input`; fails exactly where the grammar rejects it.
    pub fn compile(input: &str) -> (r: Result<Self, ParseError>)
        ensures
            match parse_template(input@) {
                Ok(m) => r matches Ok(t) && t@ == m,
                Err(e) => r matches Err(x) && x@ == e,
            },
    {
        let mut scanner = Scanner::new(input);
        proof {
            scanner.lemma_pos_bound();
        }
        match Self::parse(&mut scanner, 0) {
            Ok(instructions) => Ok(Template { instructions }),
            Err(e) => Err(e),
        }
    }

    /// Parses the directive that starts at the cursor, just inside its opening
    /// braces; a `foreach` comes back with its whole body. `None` stands for
    /// an `end` that closes the enclosing block.
    fn parse_directive(scanner: &mut Scanner, level: usize) -> (r: Result<Option<Instruction>, ParseError>)
        requires
            old(scanner).wf(),
            level + old(scanner).input().len() - old(scanner).pos() < usize::MAX,
        ensures
            final(scanner).wf(),
            final(scanner).input() == old(scanner).input(),
            old(scanner).pos() <= final(scanner).pos(),
            match directive(old(scanner).input(), old(scanner).pos()) {
                Err(e) => r matches Err(x) && x@ == e,
                Ok(Directive::Close(q)) => if level == 0 {
                    r matches Err(x) && x@ == ParseFailure::Unexpected(
                        byte_len(old(scanner).input().take(old(scanner).pos() as int)),
                        "{{ end }} instruction"@,
                    )
                } else {
                    r matches Ok(None) && final(scanner).pos() == q
                },
                Ok(Directive::Param(path, q)) => r matches Ok(Some(i)) && i.view()
                    == Instr::Parameter(path) && final(scanner).pos() == q,
                Ok(Directive::Open(name, key, q)) => old(scanner).pos() < q <= old(
                    scanner,
                ).input().len() && match parse_block(old(scanner).input(), q, level as nat + 1) {
                    Err(e) => r matches Err(x) && x@ == e,
                    Ok((body, end)) => r matches Ok(Some(i)) && i.view() == Instr::ForEach(
                        name,
                        key,
                        body,
                    ) && final(scanner).pos() == end,
                },
            },
        decreases old(scanner).input().len() - old(scanner).pos(), 0nat,
    {
        let ghost s = scanner.input();
        proof {
            reveal_strlit("foreach");
            reveal_strlit("end");
            reveal_strlit("in");
            reveal_strlit("}}");
        }
        proof {
            scanner.lemma_pos_bound();
        }
        let at = scanner.index();
        let delims: [char; 2] = [' ', '}'];
        assert(delims@ =~= seq![' ', '}']);
        if scanner.consume_exact("foreach") {
            scanner.consume_whitespace();
            let var_name = scanner.consume_until_char(' ');
            scanner.consume_whitespace();
            if !scanner.consume_exact("in") {
                return Err(ParseError::Expected(scanner.index(), "in".to_owned()));
            }
            scanner.consume_whitespace();
            let ghost d = scanner.pos();
            let var_value = scanner.consume_until_any_char(&delims);
            proof {
                lemma_find_any_bounds(s, d, seq![' ', '}']);
            }
            scanner.consume_whitespace();
            if var_value.unicode_len() == 0 {
                return Err(ParseError::Expected(scanner.index(), "collection".to_owned()));
            }
            if !scanner.consume_exact("}}") {
                return Err(ParseError::Expected(scanner.index(), "}}".to_owned()));
            }
            proof {
                scanner.lemma_pos_bound();
            }
            let body = match Self::parse(scanner, level + 1) {
                Ok(body) => body,
                Err(e) => return Err(e),
            };
            Ok(Some(Instruction::ForEach(var_name.to_owned(), var_value.to_owned(), body)))
        } else if scanner.consume_exact("end") {
            scanner.consume_whitespace();
            if !scanner.consume_exact("}}") {
                return Err(ParseError::Expected(scanner.index(), "}}".to_owned()));
            }
            if level == 0 {
                return Err(ParseError::Unexpected(at, "{{ end }} instruction".to_owned()));
            }
            Ok(None)
        } else {
            let param_name = scanner.consume_until_any_char(&delims);
            scanner.consume_whitespace();
            if !scanner.consume_exact("}}") {
                return Err(ParseError::Expected(scanner.index(), "}}".to_owned()));
            }
            Ok(Some(Instruction::Parameter(split_path(param_name))))
        }
    }

    #[verifier::rlimit(40)]
    fn parse(scanner: &mut Scanner, level: usize) -> (r: Result<Vec<Instruction>, ParseError>)
        requires
            old(scanner).wf(),
            level + old(scanner).input().len() - old(scanner).pos() <= usize::MAX,
        ensures
            final(scanner).wf(),
            final(scanner).input() == old(scanner).input(),
            old(scanner).pos() <= final(scanner).pos(),
            match parse_block(old(scanner).input(), old(scanner).pos(), level as nat) {
                Ok((m, q)) => r matches Ok(v) && instrs_view(v@) == m && final(scanner).pos() == q,
                Err(e) => r matches Err(x) && x@ == e,
            },
        decreases old(scanner).input().len() - old(scanner).pos(),
    {
        let ghost s = scanner.input();
        let ghost start = scanner.pos();
        proof {
            scanner.lemma_pos_bound();
        }
        let mut result: Vec<Instruction> = Vec::new();
        assert(instrs_view(result@) =~= Seq::<Instr>::empty());
        assert(prepend(Seq::empty(), parse_block(s, start, level as nat)) =~= parse_block(s, start, level as nat)) by {
            if let Ok((m, q)) = parse_block(s, start, level as nat) {
                assert(Seq::<Instr>::empty() + m =~= m);
            }
        }
        while scanner.has_remaining()
            invariant
                scanner.wf(),
                scanner.input() == s,
                s == old(scanner).input(),
                start == old(scanner).pos(),
                start <= scanner.pos() <= s.len(),
                level + s.len() - start <= usize::MAX,
                parse_block(s, start, level as nat) == prepend(
                    instrs_view(result@),
                    parse_block(s, scanner.pos(), level as nat),
                ),
            ensures
                scanner.wf(),
                scanner.input() == s,
                start <= scanner.pos(),
                scanner.pos() >= s.len(),
                parse_block(s, start, level as nat) == prepend(
                    instrs_view(result@),
                    parse_block(s, scanner.pos(), level as nat),
                ),
            decreases s.len() - scanner.pos(),
        {
            let ghost pos = scanner.pos();
            let plain_text = scanner.consume_until_str("{{");
            let ghost t = scanner.pos();
            proof {
                lemma_find_str_bounds(s, pos, "{{"@);
                lemma_find_str_found(s, pos, "{{"@);
            }
            let text = Instruction::Text(plain_text.to_owned());
            let ghost text_view = text.view();
            let ghost before = result@;
            result.push(text);
            proof {
                lemma_instrs_view_push(before, result@.last());
                assert(result@ =~= before.push(result@.last()));
            }
            let ghost acc = instrs_view(before);
            proof {
                assert(instrs_view(result@) =~= acc + seq![text_view]);
            }
            if !scanner.has_remaining() {
                proof {
                    lemma_prepend_prepend(acc, seq![text_view], end_of_input(s, t, level as nat));
                }
                break;
            }
            scanner.consume_exact("{{");
            scanner.consume_whitespace();
            proof {
                reveal_strlit("{{");
                lemma_skip_spaces_bounds(s, t + 2);
            }
            match Self::parse_directive(scanner, level) {
                Err(e) => {
                    return Err(e);
                },
                Ok(None) => {
                    proof {
                        assert(instrs_view(result@) =~= acc + seq![text_view]);
                    }
                    return Ok(result);
                },
                Ok(Some(instr)) => {
                    let ghost mid = result@;
                    result.push(instr);
                    proof {
                        scanner.lemma_pos_bound();
                        lemma_instrs_view_push(mid, result@.last());
                        assert(result@ =~= mid.push(result@.last()));
                        let x = result@.last().view();
                        assert(instrs_view(result@) =~= acc + seq![text_view, x]);
                        lemma_prepend_prepend(
                            acc,
                            seq![text_view, x],
                            parse_block(s, scanner.pos(), level as nat),
                        );
                    }
                },
            }
        }
        proof {
            scanner.lemma_pos_bound();
            assert(instrs_view(result@) + Seq::<Instr>::empty() =~= instrs_view(result@));
        }
        if level == 0 {
            Ok(result)
        } else {
            Err(ParseError::Expected(scanner.index(), "{{ end }}".to_owned()))
        }
    }

    /// Renders the template against `context`; fails exactly where the
    /// context does not supply what the template asks for.
    pub fn render(&self, context: &TemplateContext) -> (r: Result<String, RenderError>)
        ensures
            match render_seq(self@, context@) {
                Ok(t) => r matches Ok(out) && out@ == t,
                Err(e) => r matches Err(x) && x@ == e,
            },
    {
        let mut output = String::new();
        match Self::render_to(&self.instructions, &mut output, context) {
            Ok(()) => {
                assert(output@ =~= Seq::<char>::empty() + output@);
                Ok(output)
            },
            Err(e) => Err(e),
        }
    }

    fn render_to(instrs: &Vec<Instruction>, output: &mut String, context: &TemplateContext) -> (r:
        Result<(), RenderError>)
        ensures
            match render_seq(instrs_view(instrs@), context@) {
                Ok(t) => r is Ok && final(output)@ == old(output)@ + t,
                Err(e) => r matches Err(x) && x@ == e,
            },
        decreases instrs,
    {
        let mut i: usize = 0;
        assert(instrs@.take(0) =~= Seq::<Instruction>::empty());
        assert(old(output)@ + Seq::<char>::empty() =~= old(output)@);
        while i < instrs.len()
            invariant
                i <= instrs@.len(),
                render_seq(instrs_view(instrs@.take(i as int)), context@) matches Ok(a) && output@
                    == old(output)@ + a,
            decreases instrs@.len() - i,
        {
            let ghost before = output@;
            let ghost pre = instrs@.take(i as int);
            assert(instrs@.take(i + 1) =~= pre.push(instrs@[i as int]));
            proof {
                lemma_instrs_view_push(pre, instrs@[i as int]);
                assert(instrs_view(pre).push(instrs@[i as int].view()).drop_last() =~= instrs_view(pre));
            }
            match Self::render_one(&instrs[i], output, context) {
                Ok(()) => {
                    assert(output@ =~= old(output)@ + (render_seq(instrs_view(pre), context@)->Ok_0 + render_instr(instrs@[i as int].view(), context@)->Ok_0));
                },
                Err(e) => {
                    proof {
                        lemma_render_seq_prefix(instrs@, i + 1, context@);
                    }
                    return Err(e);
                },
            }
            i = i + 1;
        }
        assert(instrs@.take(instrs@.len() as int) =~= instrs@);
        Ok(())
    }

    fn render_one(instr: &Instruction, output: &mut String, context: &TemplateContext) -> (r: Result<(), RenderError>)
        ensures
            match render_instr(instr.view(), context@) {
                Ok(t) => r is Ok && final(output)@ == old(output)@ + t,
                Err(e) => r matches Err(x) && x@ == e,
            },
        decreases instr,
    {
        match instr {
            Instruction::Text(text) => {
                output.append(text.as_str());
                Ok(())
            },
            Instruction::Parameter(path) => match resolve_path(context, path) {
                Some(v) => {
                    output.append(v.as_str());
                    Ok(())
                },
                None => Err(RenderError::CannotResolve(copy_strings(path))),
            },
            Instruction::ForEach(var_name, key, body) => {
                let ghost bv = instrs_view(body@);
                assert(decreases_to!(instr => body));
                match context.get_value(key.as_str()) {
                    Some(TemplateValue::StringArray(items)) => {
                        let ghost vals = strs_view(items@).map_values(|x: Seq<char>| Value::Str(x));
                        let mut j: usize = 0;
                        assert(vals.take(0) =~= Seq::<Value>::empty());
                        assert(old(output)@ + Seq::<char>::empty() =~= old(output)@);
                        while j < items.len()
                            invariant
                                j <= items@.len(),
                                vals.len() == items@.len(),
                                bv == instrs_view(body@),
                                decreases_to!(instr => body),
                                instr.view() == Instr::ForEach(var_name@, key@, bv),
                                context@.contains_key(key@),
                                loop_values(context@[key@]) == Some(vals),
                                vals == strs_view(items@).map_values(|x: Seq<char>| Value::Str(x)),
                                render_each(bv, context@, var_name@, vals.take(j as int)) matches Ok(a) && output@ == old(output)@ + a,
                            decreases items@.len() - j,
                        {
                            let ghost pre = vals.take(j as int);
                            assert(vals.take(j + 1).drop_last() =~= pre);
                            let mut sub = TemplateContext::derive(context);
                            sub.set_str(var_name.as_str(), items[j]);
                            assert(vals[j as int] == Value::Str(items@[j as int]@));
                            match Self::render_to(body, output, &sub) {
                                Ok(()) => {
                                    assert(output@ =~= old(output)@ + (render_each(bv, context@, var_name@, pre)->Ok_0 + render_seq(bv, context@.insert(var_name@, vals[j as int]))->Ok_0));
                                },
                                Err(e) => {
                                    proof {
                                        lemma_render_each_prefix(bv, context@, var_name@, vals, j + 1);
                                    }
                                    return Err(e);
                                },
                            }
                            j = j + 1;
                        }
                        assert(vals.take(items@.len() as int) =~= vals);
                        Ok(())
                    },
                    Some(TemplateValue::ObjectArray(objs)) => {
                        let ghost vals = contexts_view(objs@).map_values(|m: Map<Seq<char>, Value>| Value::SubRef(m));
                        proof {
                            lemma_contexts_view(objs@);
                            assert(vals =~= contexts_view(objs@).map_values(|m: Map<Seq<char>, Value>| Value::SubRef(m)));
                        }
                        let mut j: usize = 0;
                        assert(vals.take(0) =~= Seq::<Value>::empty());
                        assert(old(output)@ + Seq::<char>::empty() =~= old(output)@);
                        while j < objs.len()
                            invariant
                                j <= objs@.len(),
                                vals.len() == objs@.len(),
                                bv == instrs_view(body@),
                                decreases_to!(instr => body),
                                instr.view() == Instr::ForEach(var_name@, key@, bv),
                                context@.contains_key(key@),
                                loop_values(context@[key@]) == Some(vals),
                                forall|k: int| 0 <= k < objs@.len() ==> #[trigger] vals[k] == Value::SubRef(objs@[k]@),
                                render_each(bv, context@, var_name@, vals.take(j as int)) matches Ok(a) && output@ == old(output)@ + a,
                            decreases objs@.len() - j,
                        {
                            let ghost pre = vals.take(j as int);
                            assert(vals.take(j + 1).drop_last() =~= pre);
                            let mut sub = TemplateContext::derive(context);
                            sub.set_obj_ref(var_name.as_str(), &objs[j]);
                            assert(vals[j as int] == Value::SubRef(objs@[j as int]@));
                            match Self::render_to(body, output, &sub) {
                                Ok(()) => {
                                    assert(output@ =~= old(output)@ + (render_each(bv, context@, var_name@, pre)->Ok_0 + render_seq(bv, context@.insert(var_name@, vals[j as int]))->Ok_0));
                                },
                                Err(e) => {
                                    proof {
                                        lemma_render_each_prefix(bv, context@, var_name@, vals, j + 1);
                                    }
                                    return Err(e);
                                },
                            }
                            j = j + 1;
                        }
                        assert(vals.take(objs@.len() as int) =~= vals);
                        Ok(())
                    },
                    _ => Err(RenderError::CannotIterate(key.clone())),
                }
            },
        }
    }

}

} // verus!
