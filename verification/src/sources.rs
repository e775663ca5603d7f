//! The programs to evaluate, with their template arguments filled in.
//!
//! A program may start with a shebang line, which is dropped, and the rest
//! is trimmed.  Each `#nr[KEY]` in it (with whitespace allowed inside) whose
//! key names a template argument, by its name or by its position counted
//! from 1, is replaced with the argument's value.

use vstd::prelude::*;

use crate::cli::TemplateArg;
use crate::text::{chars_of, decimal_string, decimal_text, string_of, trim, trimmed};

verus! {

/// A program to evaluate, and the file it came from.
#[derive(Debug, Clone)]
pub struct Source {
    pub content: String,
    pub file: Option<String>,
}

/// A program without its shebang line, if it has one.
pub open spec fn after_shebang(s: Seq<char>) -> Seq<char> {
    if s.len() >= 2 && s[0] == '#' && s[1] == '!' {
        match crate::text::find_char_from(s, '\n', 0) {
            Some(i) => s.skip(i + 1),
            None => Seq::empty(),
        }
    } else {
        s
    }
}

/// A program that starts with `#!` loses its first line, line break
/// included, and only that; a program without the mark is kept whole.
pub proof fn lemma_shebang_line_dropped(s: Seq<char>, line: Seq<char>, rest: Seq<char>)
    ensures
        !(s.len() >= 2 && s[0] == '#' && s[1] == '!') ==> after_shebang(s) == s,
        s == line + seq!['\n'] + rest && line.len() >= 2 && line[0] == '#' && line[1] == '!'
            && !line.contains('\n') ==> after_shebang(s) == rest,
        s.len() >= 2 && s[0] == '#' && s[1] == '!' && !s.contains('\n') ==> after_shebang(s)
            == Seq::<char>::empty(),
{
    if s == line + seq!['\n'] + rest && line.len() >= 2 && line[0] == '#' && line[1] == '!'
        && !line.contains('\n') {
        assert(s[0] == '#' && s[1] == '!');
        assert(s[line.len() as int] == '\n');
        assert forall|k: int| 0 <= k < line.len() implies s[k] != '\n' by {
            assert(s[k] == line[k]);
            if line[k] == '\n' {
                assert(line.contains('\n'));
            }
        }
        crate::text::lemma_find_char_first(s, '\n', 0, line.len() as int);
        assert(s.skip(line.len() as int + 1) =~= rest);
    }
    if s.len() >= 2 && s[0] == '#' && s[1] == '!' && !s.contains('\n') {
        crate::text::lemma_find_char_bounds(s, '\n', 0);
        if let Some(i) = crate::text::find_char_from(s, '\n', 0) {
            assert(s.contains('\n'));
        }
    }
}

fn drop_shebang(s: &[char]) -> (r: Vec<char>)
    ensures
        r@ == after_shebang(s@),
{
    if s.len() >= 2 && s[0] == '#' && s[1] == '!' {
        proof {
            crate::text::lemma_find_char_bounds(s@, '\n', 0);
        }
        match crate::text::find_char(s, '\n', 0) {
            Some(i) => crate::text::copy_range(s, i + 1, s.len()),
            None => Vec::new(),
        }
    } else {
        crate::text::copy_range(s, 0, s.len())
    }
}

/// Characters that have a meaning in a regular expression.
pub open spec fn is_meta_character(c: char) -> bool {
    c == '\\' || c == '.' || c == '+' || c == '*' || c == '?' || c == '(' || c == ')' || c == '|'
        || c == '[' || c == ']' || c == '{' || c == '}' || c == '^' || c == '$' || c == '#' || c
        == '&' || c == '-' || c == '~'
}

/// `s` with a `\` before each meta character.
pub open spec fn escaped(s: Seq<char>) -> Seq<char>
    decreases s.len(),
{
    if s.len() == 0 {
        Seq::empty()
    } else {
        escaped(s.drop_last()) + if is_meta_character(s.last()) {
            seq!['\\', s.last()]
        } else {
            seq![s.last()]
        }
    }
}

/// `regex::escape`: the text with every regular expression meta character
/// escaped by a backslash, as regex-syntax's source writes it.
#[verifier::external_body]
fn regex_escape(s: &str) -> (r: String)
    ensures
        r@ == escaped(s@),
{
    regex::escape(s)
}

/// The first match of a regular expression in a text: where it starts and
/// ends, in characters, and the text of its first group.
pub uninterp spec fn first_capture(pattern: Seq<char>, text: Seq<char>) -> Option<(int, int, Seq<char>)>;

/// `regex::Regex::new` and `Regex::captures`: compiles `pattern` and finds
/// its first match in `text` with its first group.  The contract names the
/// result, and states only that a match lies within the text; an invalid
/// pattern gives no match.
#[verifier::external_body]
fn capture(pattern: &str, text: &str) -> (r: Option<(usize, usize, String)>)
    ensures
        match r {
            Some((a, b, g)) => first_capture(pattern@, text@) == Some((a as int, b as int, g@)) && a
                <= b <= text@.len(),
            None => first_capture(pattern@, text@) is None,
        },
{
    let caps = regex::Regex::new(pattern).ok()?.captures(text)?;
    let (whole, group) = (caps.get(0)?, caps.get(1)?);
    let a = text[..whole.start()].chars().count();
    let b = text[..whole.end()].chars().count();
    Some((a, b, group.as_str().to_string()))
}

/// Template argument values by key, each key once.
pub open spec fn table_view(t: Seq<(String, String)>) -> Seq<(Seq<char>, Seq<char>)> {
    Seq::new(t.len(), |i: int| (t[i].0@, t[i].1@))
}

/// The table with `k` set to `v`: in place where `k` is a key, at the end
/// otherwise.
pub open spec fn set_key(t: Seq<(Seq<char>, Seq<char>)>, k: Seq<char>, v: Seq<char>) -> Seq<
    (Seq<char>, Seq<char>),
> {
    match index_of(t, k, 0) {
        Some(i) => t.update(i, (k, v)),
        None => t.push((k, v)),
    }
}

/// The first entry at or after `i` with the key `k`.
pub open spec fn index_of(t: Seq<(Seq<char>, Seq<char>)>, k: Seq<char>, i: int) -> Option<int>
    decreases t.len() - i,
{
    if i < 0 || i >= t.len() {
        None
    } else if t[i].0 == k {
        Some(i)
    } else {
        index_of(t, k, i + 1)
    }
}

/// Where `index_of` finds `k` from `i`: the first entry with that key.
proof fn lemma_index_of(t: Seq<(Seq<char>, Seq<char>)>, k: Seq<char>, i: int)
    requires
        0 <= i <= t.len(),
    ensures
        match index_of(t, k, i) {
            Some(j) => i <= j < t.len() && t[j].0 == k && forall|m: int| i <= m < j ==> t[m].0 != k,
            None => forall|m: int| i <= m < t.len() ==> t[m].0 != k,
        },
    decreases t.len() - i,
{
    if i < t.len() && t[i].0 != k {
        lemma_index_of(t, k, i + 1);
    }
}

/// `index_of` gives the first entry with the key.
proof fn lemma_index_of_first(t: Seq<(Seq<char>, Seq<char>)>, k: Seq<char>, i: int, j: int)
    requires
        0 <= i <= j,
        j < t.len() ==> t[j].0 == k,
        j <= t.len(),
        forall|m: int| i <= m < j ==> t[m].0 != k,
    ensures
        index_of(t, k, i) == (if j < t.len() { Some(j) } else { None::<int> }),
    decreases j - i,
{
    if i < j {
        lemma_index_of_first(t, k, i + 1, j);
    }
}

/// After `k` is set to `v`, the value of `k` is `v`.
proof fn lemma_set_key_reads(t: Seq<(Seq<char>, Seq<char>)>, k: Seq<char>, v: Seq<char>, fallback: Seq<char>)
    ensures
        lookup(set_key(t, k, v), k, fallback) == v,
{
    lemma_index_of(t, k, 0);
    let t2 = set_key(t, k, v);
    match index_of(t, k, 0) {
        Some(j) => {
            lemma_index_of_first(t2, k, 0, j);
        },
        None => {
            lemma_index_of_first(t2, k, 0, t.len() as int);
        },
    }
}

/// Setting another key leaves the value of `k` as it was.
proof fn lemma_set_key_keeps(
    t: Seq<(Seq<char>, Seq<char>)>,
    k2: Seq<char>,
    v: Seq<char>,
    k: Seq<char>,
    fallback: Seq<char>,
)
    requires
        k2 != k,
    ensures
        lookup(set_key(t, k2, v), k, fallback) == lookup(t, k, fallback),
{
    lemma_index_of(t, k2, 0);
    lemma_index_of(t, k, 0);
    let t2 = set_key(t, k2, v);
    match index_of(t, k, 0) {
        Some(j) => {
            lemma_index_of_first(t2, k, 0, j);
        },
        None => {
            lemma_index_of_first(t2, k, 0, t2.len() as int);
        },
    }
}

/// A template argument sets the value of its name and of its position
/// (counted from 1), whatever the arguments before it set: a later argument
/// wins.
pub proof fn lemma_last_argument_wins(args: Seq<TemplateArg>, a: TemplateArg, fallback: Seq<char>)
    ensures
        a.pos matches Some(p) ==> lookup(
            table_of(args.push(a)),
            decimal_string((p + 1) as nat),
            fallback,
        ) == a.value@,
        a.name matches Some(n) ==> lookup(table_of(args.push(a)), n@, fallback) == a.value@,
{
    let all = args.push(a);
    assert(all.drop_last() == args);
    assert(all.last() == a);
    let t = table_of(args);
    let t1 = match a.name {
        Some(n) => set_key(t, n@, a.value@),
        None => t,
    };
    if let Some(n) = a.name {
        lemma_set_key_reads(t, n@, a.value@, fallback);
    }
    if let Some(p) = a.pos {
        let d = decimal_string((p + 1) as nat);
        lemma_set_key_reads(t1, d, a.value@, fallback);
        if let Some(n) = a.name {
            if d != n@ {
                lemma_set_key_keeps(t1, d, a.value@, n@, fallback);
            }
        }
    }
}

/// An argument leaves the values of the keys that it does not name as the
/// arguments before it set them.
pub proof fn lemma_other_keys_kept(
    args: Seq<TemplateArg>,
    a: TemplateArg,
    k: Seq<char>,
    fallback: Seq<char>,
)
    requires
        !(a.name matches Some(n) && n@ == k),
        !(a.pos matches Some(p) && decimal_string((p + 1) as nat) == k),
    ensures
        lookup(table_of(args.push(a)), k, fallback) == lookup(table_of(args), k, fallback),
{
    let all = args.push(a);
    assert(all.drop_last() == args);
    assert(all.last() == a);
    let t = table_of(args);
    let t1 = match a.name {
        Some(n) => set_key(t, n@, a.value@),
        None => t,
    };
    if let Some(n) = a.name {
        lemma_set_key_keeps(t, n@, a.value@, k, fallback);
    }
    if let Some(p) = a.pos {
        lemma_set_key_keeps(t1, decimal_string((p + 1) as nat), a.value@, k, fallback);
    }
}

/// The keys of a template argument: its name, and its position counted from
/// 1.
pub open spec fn table_of(args: Seq<TemplateArg>) -> Seq<(Seq<char>, Seq<char>)>
    decreases args.len(),
{
    if args.len() == 0 {
        Seq::empty()
    } else {
        let t = table_of(args.drop_last());
        let a = args.last();
        let t1 = match a.name {
            Some(n) => set_key(t, n@, a.value@),
            None => t,
        };
        match a.pos {
            Some(p) => set_key(t1, decimal_string((p + 1) as nat), a.value@),
            None => t1,
        }
    }
}

/// The keys joined with `|`, each escaped.
pub open spec fn alternatives(t: Seq<(Seq<char>, Seq<char>)>) -> Seq<char>
    decreases t.len(),
{
    if t.len() == 0 {
        Seq::empty()
    } else if t.len() == 1 {
        escaped(t[0].0)
    } else {
        alternatives(t.drop_last()) + seq!['|'] + escaped(t.last().0)
    }
}

/// The pattern that finds the template arguments: `#nr`, `[`, a key and
/// `]`, with whitespace allowed between them.
pub open spec fn pattern_of(t: Seq<(Seq<char>, Seq<char>)>) -> Seq<char> {
    seq!['#', 'n', 'r', '\\', 's', '*', '\\', '[', '\\', 's', '*', '('] + alternatives(t) + seq![
        ')',
        '\\',
        's',
        '*',
        '\\',
        ']',
    ]
}

/// The value for `k`, or `fallback` where the table has none.
pub open spec fn lookup(t: Seq<(Seq<char>, Seq<char>)>, k: Seq<char>, fallback: Seq<char>) -> Seq<
    char,
> {
    match index_of(t, k, 0) {
        Some(i) => t[i].1,
        None => fallback,
    }
}

/// The text with each match of the pattern replaced by the value of its
/// key, from left to right.
pub open spec fn replaced(
    pattern: Seq<char>,
    t: Seq<(Seq<char>, Seq<char>)>,
    text: Seq<char>,
) -> Seq<char>
    decreases text.len(),
{
    match first_capture(pattern, text) {
        Some((a, b, g)) => if 0 <= a <= b <= text.len() && 0 < b {
            text.take(a) + lookup(t, g, text.subrange(a, b)) + replaced(pattern, t, text.skip(b))
        } else {
            text
        },
        None => text,
    }
}

/// A program after its template arguments are filled in.
pub open spec fn rendered(t: Seq<(Seq<char>, Seq<char>)>, source: Seq<char>) -> Seq<char> {
    let body = trimmed(after_shebang(source));
    if t.len() == 0 {
        body
    } else {
        replaced(pattern_of(t), t, body)
    }
}

/// The template arguments by key, and the pattern that finds them.
#[derive(Debug, Clone)]
pub struct Context {
    pub table: Vec<(String, String)>,
    pub pattern: Option<String>,
}

impl Context {
    pub open spec fn wf(&self) -> bool {
        &&& self.pattern is Some <==> self.table.len() > 0
        &&& self.pattern matches Some(p) ==> p@ == pattern_of(table_view(self.table@))
    }
}

fn set_entry(t: &mut Vec<(String, String)>, k: String, v: String)
    ensures
        table_view(final(t)@) == set_key(table_view(old(t)@), k@, v@),
{
    let ghost tv = table_view(t@);
    let mut i: usize = 0;
    while i < t.len()
        invariant
            i <= t.len(),
            t@ == old(t)@,
            tv == table_view(t@),
            index_of(tv, k@, i as int) == index_of(tv, k@, 0),
        decreases t.len() - i,
    {
        if t[i].0 == k {
            let ghost kv = k@;
            let ghost vv = v@;
            t.set(i, (k, v));
            assert(table_view(t@) =~= tv.update(i as int, (kv, vv)));
            return;
        }
        i = i + 1;
    }
    let ghost kv = k@;
    let ghost vv = v@;
    t.push((k, v));
    assert(table_view(t@) =~= tv.push((kv, vv)));
}

fn push_text(out: &mut String, s: &str)
    ensures
        final(out)@ == old(out)@ + s@,
{
    out.append(s);
}

fn push_chars(out: &mut String, cs: Seq<char>, s: &str)
    requires
        s@ == cs,
    ensures
        final(out)@ == old(out)@ + cs,
{
    out.append(s);
}

impl Context {
    /// The table and pattern of the template arguments; a later argument
    /// with the same key wins.
    pub fn from_args(args: &[TemplateArg]) -> (c: Context)
        ensures
            c.wf(),
            table_view(c.table@) == table_of(args@),
    {
        let mut table: Vec<(String, String)> = Vec::new();
        let mut k: usize = 0;
        while k < args.len()
            invariant
                k <= args.len(),
                table_view(table@) == table_of(args@.take(k as int)),
            decreases args.len() - k,
        {
            assert(args@.take(k + 1).drop_last() == args@.take(k as int));
            assert(args@.take(k + 1).last() == args@[k as int]);
            let a = &args[k];
            if let Some(n) = &a.name {
                set_entry(&mut table, n.clone(), a.value.clone());
            }
            if let Some(p) = a.pos {
                let key = decimal_text((p as u128) + 1);
                set_entry(&mut table, key, a.value.clone());
            }
            k = k + 1;
        }
        assert(args@.take(args.len() as int) == args@);
        if table.len() == 0 {
            return Context { table, pattern: None };
        }
        let ghost tv = table_view(table@);
        let mut pat = string_of(vec!['#', 'n', 'r', '\\', 's', '*', '\\', '[', '\\', 's', '*', '('].as_slice());
        let mut i: usize = 0;
        while i < table.len()
            invariant
                tv == table_view(table@),
                0 < table.len(),
                i <= table.len(),
                pat@ == seq!['#', 'n', 'r', '\\', 's', '*', '\\', '[', '\\', 's', '*', '('] + alternatives(
                    tv.take(i as int),
                ),
            decreases table.len() - i,
        {
            let ghost before = pat@;
            assert(tv.take(i + 1).drop_last() == tv.take(i as int));
            assert(tv.take(i + 1).last() == tv[i as int]);
            if i > 0 {
                pat.push('|');
            }
            let e = regex_escape(table[i].0.as_str());
            push_text(&mut pat, e.as_str());
            proof {
                if i == 0 {
                    assert(tv.take(1) == seq![tv[0]]);
                    assert(alternatives(tv.take(0)) == Seq::<char>::empty());
                }
                assert(pat@ =~= seq!['#', 'n', 'r', '\\', 's', '*', '\\', '[', '\\', 's', '*', '(']
                    + alternatives(tv.take(i + 1)));
            }
            i = i + 1;
        }
        let tail = string_of(vec![')', '\\', 's', '*', '\\', ']'].as_slice());
        push_text(&mut pat, tail.as_str());
        assert(tv.take(table.len() as int) == tv);
        assert(pat@ =~= pattern_of(tv));
        Context { table, pattern: Some(pat) }
    }

    fn lookup_value(&self, k: &String, fallback: &str) -> (r: String)
        ensures
            r@ == lookup(table_view(self.table@), k@, fallback@),
    {
        let ghost tv = table_view(self.table@);
        let mut i: usize = 0;
        while i < self.table.len()
            invariant
                i <= self.table.len(),
                tv == table_view(self.table@),
                index_of(tv, k@, i as int) == index_of(tv, k@, 0),
            decreases self.table.len() - i,
        {
            if self.table[i].0 == *k {
                return self.table[i].1.clone();
            }
            i = i + 1;
        }
        string_of(chars_of(fallback).as_slice())
    }

    /// One match of the template pattern in `rest`, the characters from
    /// `start` to `end`, whose group is `key`: the text before the match
    /// followed by the key's value (the match itself where no argument has
    /// that key), and the text after the match.
    pub fn substitute(&self, rest: &str, start: usize, end: usize, key: &str) -> (r: (String, String))
        requires
            start <= end <= rest@.len(),
        ensures
            r.0@ == rest@.take(start as int) + lookup(
                table_view(self.table@),
                key@,
                rest@.subrange(start as int, end as int),
            ),
            r.1@ == rest@.skip(end as int),
    {
        let rc = chars_of(rest);
        let before = string_of(crate::text::copy_range(rc.as_slice(), 0, start).as_slice());
        let matched = string_of(crate::text::copy_range(rc.as_slice(), start, end).as_slice());
        let after = string_of(crate::text::copy_range(rc.as_slice(), end, rc.len()).as_slice());
        let k = string_of(chars_of(key).as_slice());
        let value = self.lookup_value(&k, matched.as_str());
        let mut done = before;
        push_text(&mut done, value.as_str());
        (done, after)
    }

    /// A program with its shebang line dropped, trimmed, and its template
    /// arguments filled in.
    pub fn render_source(&self, source: &str) -> (r: String)
        requires
            self.wf(),
        ensures
            r@ == rendered(table_view(self.table@), source@),
    {
        let cs = chars_of(source);
        let body = trim(drop_shebang(cs.as_slice()).as_slice());
        let text = string_of(body.as_slice());
        match &self.pattern {
            None => text,
            Some(p) => {
                let ghost tv = table_view(self.table@);
                let mut out = String::new();
                let mut rest = text;
                let ghost whole = rest@;
                while rest.as_str().unicode_len() > 0
                    invariant
                        self.pattern == Some(*p),
                        p@ == pattern_of(tv),
                        tv == table_view(self.table@),
                        out@ + replaced(p@, tv, rest@) == replaced(p@, tv, whole),
                    ensures
                        out@ + rest@ == replaced(p@, tv, whole),
                    decreases rest@.len(),
                {
                    match capture(p.as_str(), rest.as_str()) {
                        Some((a, b, g)) => {
                            if b == 0 {
                                break;
                            }
                            let (done, after) = self.substitute(rest.as_str(), a, b, g.as_str());
                            push_text(&mut out, done.as_str());
                            assert(out@ + replaced(p@, tv, after@) =~= replaced(p@, tv, whole));
                            rest = after;
                        },
                        None => {
                            break;
                        },
                    }
                }
                push_text(&mut out, rest.as_str());
                out
            },
        }
    }
}

/// The programs to evaluate, with their template arguments filled in, from
/// their texts and the files they came from.
pub fn load_sources(loaded: &Vec<(Option<String>, String)>, template_args: &[TemplateArg]) -> (r: Vec<
    Source,
>)
    ensures
        r.len() == loaded.len(),
        forall|i: int|
            0 <= i < r.len() ==> r@[i].content@ == rendered(
                table_of(template_args@),
                (#[trigger] loaded@[i]).1@,
            ) && r@[i].file == loaded@[i].0,
{
    let context = Context::from_args(template_args);
    let mut out: Vec<Source> = Vec::new();
    let mut k: usize = 0;
    while k < loaded.len()
        invariant
            context.wf(),
            table_view(context.table@) == table_of(template_args@),
            k <= loaded.len(),
            out.len() == k,
            forall|i: int|
                0 <= i < k ==> out@[i].content@ == rendered(
                    table_of(template_args@),
                    (#[trigger] loaded@[i]).1@,
                ) && out@[i].file == loaded@[i].0,
        decreases loaded.len() - k,
    {
        let content = context.render_source(loaded[k].1.as_str());
        let file = loaded[k].0.clone();
        out.push(Source { content, file });
        k = k + 1;
    }
    out
}

} // verus!
