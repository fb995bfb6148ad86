//! A small template language: `{{key}}` placeholders, `{{#if key}}` blocks with
//! an optional `{{else}}`, and `{{#each name}}` blocks over a JSON array of
//! objects, with `{{#unless @last}}` inside them.
use vstd::prelude::*;
use crate::text::{
    find_from, find_from_exec, matches_at, owned, replace_all, replace_all_exec, trim, trim_exec,
    lemma_trim_len,
};

verus! {

/// Pairs of strings viewed as pairs of character sequences.
pub open spec fn pairs_view(v: Seq<(String, String)>) -> Seq<(Seq<char>, Seq<char>)> {
    v.map_values(|e: (String, String)| (e.0@, e.1@))
}

/// The value stored under `k` at index `i` or later.
pub open spec fn lookup_from(c: Seq<(Seq<char>, Seq<char>)>, k: Seq<char>, i: int) -> Option<Seq<char>>
    decreases c.len() - i,
{
    if i < 0 || i >= c.len() {
        None
    } else if c[i].0 == k {
        Some(c[i].1)
    } else {
        lookup_from(c, k, i + 1)
    }
}

/// The value stored under `k`.
pub open spec fn lookup(c: Seq<(Seq<char>, Seq<char>)>, k: Seq<char>) -> Option<Seq<char>> {
    lookup_from(c, k, 0)
}

/// Whether no two entries share a key.
pub open spec fn keys_unique(c: Seq<(Seq<char>, Seq<char>)>) -> bool {
    forall|i: int, j: int| 0 <= i < j < c.len() ==> c[i].0 != c[j].0
}

/// The first index at or after `i` of an entry with key `k`, or -1.
pub open spec fn key_index_from(c: Seq<(Seq<char>, Seq<char>)>, k: Seq<char>, i: int) -> int
    decreases c.len() - i,
{
    if i < 0 || i >= c.len() {
        -1
    } else if c[i].0 == k {
        i
    } else {
        key_index_from(c, k, i + 1)
    }
}

/// `c` with `v` stored under `k`: in place where `k` has an entry, else at the end.
pub open spec fn with_entry(c: Seq<(Seq<char>, Seq<char>)>, k: Seq<char>, v: Seq<char>) -> Seq<(Seq<char>, Seq<char>)> {
    let i = key_index_from(c, k, 0);
    if i >= 0 {
        c.update(i, (k, v))
    } else {
        c.push((k, v))
    }
}

/// A mapping from names to text, kept in insertion order, each name once.
pub struct Context {
    entries: Vec<(String, String)>,
}

impl View for Context {
    type V = Seq<(Seq<char>, Seq<char>)>;

    closed spec fn view(&self) -> Self::V {
        pairs_view(self.entries@)
    }
}

impl Context {
    pub closed spec fn wf(&self) -> bool {
        keys_unique(self@)
    }

    pub fn new() -> (r: Context)
        ensures
            r@ == Seq::<(Seq<char>, Seq<char>)>::empty(),
            r.wf(),
    {
        let r = Context { entries: Vec::new() };
        assert(r@ =~= Seq::<(Seq<char>, Seq<char>)>::empty());
        r
    }

    /// Stores `value` under `key`: an existing entry keeps its place and takes the
    /// new value, a new key goes at the end.
    pub fn insert(&mut self, key: String, value: String)
        requires
            old(self).wf(),
        ensures
            final(self).wf(),
            final(self)@ == with_entry(old(self)@, key@, value@),
    {
        let n = self.entries.len();
        let mut i: usize = 0;
        while i < n
            invariant
                n == self.entries@.len(),
                self == old(self),
                keys_unique(self@),
                i <= n,
                key_index_from(self@, key@, 0) == key_index_from(self@, key@, i as int),
            decreases n - i,
        {
            if self.entries[i].0 == key {
                assert(self@[i as int].0 == key@);
                let ghost before = self@;
                self.entries.set(i, (key, value));
                assert(self@ =~= before.update(i as int, (key@, value@)));
                assert(keys_unique(self@)) by {
                    assert forall|a: int, b: int| 0 <= a < b < self@.len() implies self@[a].0
                        != self@[b].0 by {
                        assert(keys_unique(before));
                        assert(before[a].0 != before[b].0);
                    }
                }
                return;
            }
            i = i + 1;
        }
        let ghost before = self@;
        proof {
            lemma_key_index_none(before, key@, 0);
        }
        self.entries.push((key, value));
        assert(self@ =~= before.push((key@, value@)));
    }

    /// The value stored under `key`.
    pub fn get(&self, key: &str) -> (r: Option<&String>)
        ensures
            match r {
                Some(v) => lookup(self@, key@) == Some(v@),
                None => lookup(self@, key@) is None,
            },
    {
        let n = self.entries.len();
        let k = owned(key);
        let mut i: usize = 0;
        while i < n
            invariant
                n == self.entries@.len(),
                i <= n,
                k@ == key@,
                lookup(self@, key@) == lookup_from(self@, key@, i as int),
            decreases n - i,
        {
            if self.entries[i].0 == k {
                return Some(&self.entries[i].1);
            }
            i = i + 1;
        }
        None
    }

    /// The entries, in order.
    pub fn entries(&self) -> (r: &Vec<(String, String)>)
        ensures
            pairs_view(r@) == self@,
    {
        &self.entries
    }
}

proof fn lemma_key_index_none(c: Seq<(Seq<char>, Seq<char>)>, k: Seq<char>, j: int)
    requires
        0 <= j,
        key_index_from(c, k, j) == -1,
    ensures
        forall|i: int| j <= i < c.len() ==> c[i].0 != k,
    decreases c.len() - j,
{
    if j < c.len() {
        lemma_key_index_none(c, k, j + 1);
    }
}

/// `{{k}}`.
pub open spec fn placeholder(k: Seq<char>) -> Seq<char> {
    "{{"@ + k + "}}"@
}

/// `s` with the placeholder of each entry from index `i` on replaced by its
/// value, one entry after the other.
pub open spec fn substitute_from(s: Seq<char>, c: Seq<(Seq<char>, Seq<char>)>, i: int) -> Seq<char>
    decreases c.len() - i,
{
    if i < 0 || i >= c.len() {
        s
    } else {
        substitute_from(replace_all(s, placeholder(c[i].0), c[i].1), c, i + 1)
    }
}

pub open spec fn substitute(s: Seq<char>, c: Seq<(Seq<char>, Seq<char>)>) -> Seq<char> {
    substitute_from(s, c, 0)
}

/// `s` with each `{{#unless @last}}...{{/unless}}` block resolved: the whole
/// block removed where `last`, only its tags removed otherwise.
pub open spec fn strip_unless(s: Seq<char>, last: bool) -> Seq<char>
    decreases s.len(),
{
    let uo = "{{#unless @last}}"@;
    let uc = "{{/unless}}"@;
    match find_from(s, uo, 0) {
        None => s,
        Some(u) => match find_from(s, uc, u + uo.len()) {
            None => s,
            Some(v) => if 0 <= u && u + uo.len() <= v && v + uc.len() <= s.len() && uc.len() > 0 {
                let inner = if last {
                    Seq::empty()
                } else {
                    s.subrange(u + uo.len(), v)
                };
                strip_unless(s.subrange(0, u) + inner + s.subrange(v + uc.len(), s.len() as int), last)
            } else {
                s
            },
        },
    }
}

/// The fields of one element of an iterated array; `None` for an element that
/// is not an object.
pub type Fields = Option<Seq<(Seq<char>, Seq<char>)>>;

/// The body of an iteration instantiated for one element.
pub open spec fn item_text(body: Seq<char>, fields: Fields, last: bool) -> Seq<char> {
    match fields {
        Some(f) => substitute(strip_unless(body, last), f),
        None => strip_unless(body, last),
    }
}

/// The instantiated bodies of the elements from index `i` on, concatenated.
pub open spec fn items_text_from(body: Seq<char>, items: Seq<Fields>, i: int) -> Seq<char>
    decreases items.len() - i,
{
    if i < 0 || i >= items.len() {
        Seq::empty()
    } else {
        item_text(body, items[i], i == items.len() - 1) + items_text_from(body, items, i + 1)
    }
}

pub open spec fn items_text(body: Seq<char>, items: Seq<Fields>) -> Seq<char> {
    items_text_from(body, items, 0)
}

/// The elements of the JSON array written in `text`, each as its fields with the
/// values as text; `None` where `text` is not a JSON array.
pub uninterp spec fn json_object_items(text: Seq<char>) -> Option<Seq<Fields>>;

pub open spec fn items_view(v: Seq<Option<Vec<(String, String)>>>) -> Seq<Fields> {
    v.map_values(
        |it: Option<Vec<(String, String)>>|
            match it {
                Some(f) => Some(pairs_view(f@)),
                None => None,
            },
    )
}

pub open spec fn parsed_view(r: Option<Vec<Option<Vec<(String, String)>>>>) -> Option<Seq<Fields>> {
    match r {
        Some(v) => Some(items_view(v@)),
        None => None,
    }
}

/// Relies on `serde_json::from_str::<Vec<serde_json::Value>>` to read a JSON
/// array; each object element gives its fields, string values verbatim and
/// others in JSON notation (`Value`'s `Display`).
#[verifier::external_body]
fn parse_object_items(text: &str) -> (r: Option<Vec<Option<Vec<(String, String)>>>>)
    ensures
        parsed_view(r) == json_object_items(text@),
{
    let items: Vec<serde_json::Value> = serde_json::from_str(text).ok()?;
    Some(items.iter().map(|item| item.as_object().map(|fields| fields.iter().map(|(k, v)| match v {
        serde_json::Value::String(s) => (k.clone(), s.clone()),
        other => (k.clone(), other.to_string()),
    }).collect())).collect())
}

/// What an iteration over the context entry `name` with body `body` produces.
pub open spec fn each_replacement(name: Seq<char>, body: Seq<char>, c: Seq<(Seq<char>, Seq<char>)>) -> Seq<char> {
    match lookup(c, name) {
        None => Seq::empty(),
        Some(json) => match json_object_items(json) {
            None => Seq::empty(),
            Some(items) => items_text(body, items),
        },
    }
}

/// The first complete `{{#each name}}...{{/each}}` block of `s` replaced by its
/// iteration; `None` where `s` holds no complete block.
pub open spec fn each_step(s: Seq<char>, c: Seq<(Seq<char>, Seq<char>)>) -> Option<Seq<char>> {
    let eo = "{{#each "@;
    let cl = "}}"@;
    let ec = "{{/each}}"@;
    match find_from(s, eo, 0) {
        None => None,
        Some(a) => match find_from(s, cl, a + eo.len()) {
            None => None,
            Some(b) => match find_from(s, ec, b + cl.len()) {
                None => None,
                Some(e) => if 0 <= a && a + eo.len() <= b && b + cl.len() <= e && e + ec.len() <= s.len() {
                    Some(
                        s.subrange(0, a) + each_replacement(
                            trim(s.subrange(a + eo.len(), b)),
                            s.subrange(b + cl.len(), e),
                            c,
                        ) + s.subrange(e + ec.len(), s.len() as int),
                    )
                } else {
                    None
                },
            },
        },
    }
}

/// `s` after at most `rounds` steps of `each_step`, each scanning the text
/// again from its start.
pub open spec fn each_rounds(s: Seq<char>, c: Seq<(Seq<char>, Seq<char>)>, rounds: nat) -> Seq<char>
    decreases rounds,
{
    if rounds == 0 {
        s
    } else {
        match each_step(s, c) {
            None => s,
            Some(t) => each_rounds(t, c, (rounds - 1) as nat),
        }
    }
}

/// `s` with its `{{#each name}}...{{/each}}` blocks resolved, the text scanned
/// again from its start after each one, until no complete block is left. An
/// iteration can bring a block back, so there are at most as many rounds as
/// `s` has characters (a block takes more than one); what still holds a block
/// after that many rounds is returned as it stands.
pub open spec fn each_blocks(s: Seq<char>, c: Seq<(Seq<char>, Seq<char>)>) -> Seq<char> {
    each_rounds(s, c, s.len())
}

/// Whether the condition `name` holds: a non-empty value is stored under it.
pub open spec fn truthy(c: Seq<(Seq<char>, Seq<char>)>, name: Seq<char>) -> bool {
    match lookup(c, name) {
        Some(v) => v.len() > 0,
        None => false,
    }
}

/// The text that an `{{#if}}` block with content `block` leaves.
pub open spec fn if_replacement(block: Seq<char>, cond: bool) -> Seq<char> {
    let el = "{{else}}"@;
    match find_from(block, el, 0) {
        Some(x) => if cond {
            trim(block.subrange(0, x))
        } else {
            trim(block.subrange(x + el.len(), block.len() as int))
        },
        None => if cond {
            trim(block)
        } else {
            Seq::empty()
        },
    }
}

/// `s` with each `{{#if key}}...{{else}}...{{/if}}` block resolved, the text
/// scanned again from its start after each one; an unterminated block stops the scan.
pub open spec fn if_blocks(s: Seq<char>, c: Seq<(Seq<char>, Seq<char>)>) -> Seq<char>
    decreases s.len(),
{
    let io = "{{#if "@;
    let cl = "}}"@;
    let ic = "{{/if}}"@;
    match find_from(s, io, 0) {
        None => s,
        Some(a) => match find_from(s, cl, a + io.len()) {
            None => s,
            Some(b) => match find_from(s, ic, b + cl.len()) {
                None => s,
                Some(e) => {
                    let repl = if_replacement(
                        s.subrange(b + cl.len(), e),
                        truthy(c, trim(s.subrange(a + io.len(), b))),
                    );
                    if 0 <= a && a + io.len() <= b && b + cl.len() <= e && e + ic.len() <= s.len()
                        && io.len() > 0 && repl.len() <= e - b - cl.len() {
                        if_blocks(s.subrange(0, a) + repl + s.subrange(e + ic.len(), s.len() as int), c)
                    } else {
                        s
                    }
                },
            },
        },
    }
}

/// What `render` produces: iterations first, then placeholders, then conditionals.
pub open spec fn rendered(t: Seq<char>, c: Seq<(Seq<char>, Seq<char>)>) -> Seq<char> {
    if_blocks(substitute(each_blocks(t, c), c), c)
}

/// `s` with the placeholder of each entry replaced by its value, one entry after
/// the other.
pub fn substitute_exec(s: &str, entries: &Vec<(String, String)>) -> (r: String)
    ensures
        r@ == substitute(s@, pairs_view(entries@)),
{
    let ghost c = pairs_view(entries@);
    let mut cur = owned(s);
    let n = entries.len();
    let mut i: usize = 0;
    while i < n
        invariant
            n == entries@.len(),
            c == pairs_view(entries@),
            i <= n,
            substitute_from(cur@, c, i as int) == substitute(s@, c),
        decreases n - i,
    {
        let mut ph = owned("{{");
        ph.append(entries[i].0.as_str());
        ph.append("}}");
        assert(ph@ == placeholder(c[i as int].0));
        cur = replace_all_exec(cur.as_str(), ph.as_str(), entries[i].1.as_str());
        i = i + 1;
    }
    cur
}

/// `s` with each `{{#unless @last}}...{{/unless}}` block resolved.
pub fn strip_unless_exec(s: &str, last: bool) -> (r: String)
    ensures
        r@ == strip_unless(s@, last),
{
    let mut cur = owned(s);
    loop
        invariant
            strip_unless(cur@, last) == strip_unless(s@, last),
        decreases cur@.len(),
    {
        let uo = "{{#unless @last}}";
        let uc = "{{/unless}}";
        let n = cur.as_str().unicode_len();
        let u = match find_from_exec(cur.as_str(), uo, 0) {
            Some(u) => u,
            None => {
                return cur;
            },
        };
        let v = match find_from_exec(cur.as_str(), uc, u + uo.unicode_len()) {
            Some(v) => v,
            None => {
                return cur;
            },
        };
        let mut next = owned(cur.as_str().substring_char(0, u));
        if !last {
            next.append(cur.as_str().substring_char(u + uo.unicode_len(), v));
        }
        next.append(cur.as_str().substring_char(v + uc.unicode_len(), n));
        proof {
            let inner = if last {
                Seq::empty()
            } else {
                cur@.subrange(u + uo@.len(), v as int)
            };
            assert(next@ =~= cur@.subrange(0, u as int) + inner + cur@.subrange(
                v + uc@.len(),
                cur@.len() as int,
            ));
        }
        cur = next;
    }
}

/// The instantiated bodies of all elements, concatenated; the last element
/// drops its `{{#unless @last}}` blocks.
pub fn render_items(body: &str, items: &Vec<Option<Vec<(String, String)>>>) -> (r: String)
    ensures
        r@ == items_text(body@, items_view(items@)),
{
    let ghost iv = items_view(items@);
    let n = items.len();
    let mut out = String::new();
    let mut i: usize = 0;
    while i < n
        invariant
            n == items@.len(),
            iv == items_view(items@),
            i <= n,
            out@ + items_text_from(body@, iv, i as int) == items_text(body@, iv),
        decreases n - i,
    {
        let stripped = strip_unless_exec(body, i == n - 1);
        let piece = match &items[i] {
            Some(f) => substitute_exec(stripped.as_str(), f),
            None => stripped,
        };
        assert(piece@ == item_text(body@, iv[i as int], i == n - 1));
        let ghost before = out@;
        out.append(piece.as_str());
        assert(out@ + items_text_from(body@, iv, i + 1) =~= before + items_text_from(body@, iv, i as int));
        i = i + 1;
    }
    assert(out@ =~= out@ + items_text_from(body@, iv, n as int));
    out
}

/// What an iteration over the context entry `name` with body `body` produces.
fn each_replacement_exec(name: &str, body: &str, context: &Context) -> (r: String)
    ensures
        r@ == each_replacement(name@, body@, context@),
{
    match context.get(name) {
        None => String::new(),
        Some(json) => match parse_object_items(json.as_str()) {
            None => String::new(),
            Some(items) => render_items(body, &items),
        },
    }
}

/// The text that an `{{#if}}` block with content `block` leaves.
fn if_replacement_exec<'a>(block: &'a str, cond: bool) -> (r: &'a str)
    ensures
        r@ == if_replacement(block@, cond),
{
    let el = "{{else}}";
    let n = block.unicode_len();
    match find_from_exec(block, el, 0) {
        Some(x) => {
            let after = x + el.unicode_len();
            if cond {
                trim_exec(block.substring_char(0, x))
            } else {
                trim_exec(block.substring_char(after, n))
            }
        },
        None => if cond {
            trim_exec(block)
        } else {
            proof {
                reveal_strlit("");
            }
            ""
        },
    }
}

proof fn lemma_if_replacement_len(block: Seq<char>, cond: bool)
    ensures
        if_replacement(block, cond).len() <= block.len(),
{
    let el = "{{else}}"@;
    crate::text::lemma_find_from_bounds(block, el, 0);
    match find_from(block, el, 0) {
        Some(x) => {
            lemma_trim_len(block.subrange(0, x));
            lemma_trim_len(block.subrange(x + el.len(), block.len() as int));
        },
        None => {
            lemma_trim_len(block);
        },
    }
}

/// Renders text templates against a `Context`.
pub struct TemplateEngine;

impl TemplateEngine {
    /// The template with iterations resolved first, then placeholders, then
    /// conditionals.
    pub fn render(template: &str, context: &Context) -> (r: String)
        ensures
            r@ == rendered(template@, context@),
    {
        let mut result = owned(template);
        result = Self::process_each_loops(result, context);
        result = substitute_exec(result.as_str(), context.entries());
        result = Self::process_conditionals(result, context);
        result
    }

    /// Resolves the `{{#each name}}...{{/each}}` blocks, scanning again from the
    /// start after each one, for at most as many rounds as the template has
    /// characters.
    pub fn process_each_loops(template: String, context: &Context) -> (r: String)
        ensures
            r@ == each_blocks(template@, context@),
    {
        let mut left: usize = template.as_str().unicode_len();
        let mut cur = template;
        loop
            invariant
                each_rounds(cur@, context@, left as nat) == each_blocks(template@, context@),
            decreases left,
        {
            if left == 0 {
                return cur;
            }
            let eo = "{{#each ";
            let cl = "}}";
            let ec = "{{/each}}";
            let n = cur.as_str().unicode_len();
            let a = match find_from_exec(cur.as_str(), eo, 0) {
                Some(a) => a,
                None => {
                    return cur;
                },
            };
            let b = match find_from_exec(cur.as_str(), cl, a + eo.unicode_len()) {
                Some(b) => b,
                None => {
                    return cur;
                },
            };
            let e = match find_from_exec(cur.as_str(), ec, b + cl.unicode_len()) {
                Some(e) => e,
                None => {
                    return cur;
                },
            };
            let name = trim_exec(cur.as_str().substring_char(a + eo.unicode_len(), b));
            let body = cur.as_str().substring_char(b + cl.unicode_len(), e);
            let repl = each_replacement_exec(name, body, context);
            let mut next = owned(cur.as_str().substring_char(0, a));
            next.append(repl.as_str());
            next.append(cur.as_str().substring_char(e + ec.unicode_len(), n));
            assert(each_step(cur@, context@) == Some(next@)) by {
                assert(next@ =~= cur@.subrange(0, a as int) + repl@ + cur@.subrange(
                    e + ec@.len(),
                    cur@.len() as int,
                ));
            }
            cur = next;
            left = left - 1;
        }
    }

    /// Resolves each `{{#if key}}...{{else}}...{{/if}}` block, scanning again from
    /// the start after each one.
    pub fn process_conditionals(template: String, context: &Context) -> (r: String)
        ensures
            r@ == if_blocks(template@, context@),
    {
        let mut cur = template;
        loop
            invariant
                if_blocks(cur@, context@) == if_blocks(template@, context@),
            decreases cur@.len(),
        {
            let io = "{{#if ";
            let cl = "}}";
            let ic = "{{/if}}";
            let n = cur.as_str().unicode_len();
            let a = match find_from_exec(cur.as_str(), io, 0) {
                Some(a) => a,
                None => {
                    return cur;
                },
            };
            let b = match find_from_exec(cur.as_str(), cl, a + io.unicode_len()) {
                Some(b) => b,
                None => {
                    return cur;
                },
            };
            let e = match find_from_exec(cur.as_str(), ic, b + cl.unicode_len()) {
                Some(e) => e,
                None => {
                    return cur;
                },
            };
            let name = trim_exec(cur.as_str().substring_char(a + io.unicode_len(), b));
            let block = cur.as_str().substring_char(b + cl.unicode_len(), e);
            let cond = match context.get(name) {
                Some(v) => v.as_str().unicode_len() > 0,
                None => false,
            };
            let repl = if_replacement_exec(block, cond);
            proof {
                lemma_if_replacement_len(block@, cond);
            }
            let mut next = owned(cur.as_str().substring_char(0, a));
            next.append(repl);
            next.append(cur.as_str().substring_char(e + ic.unicode_len(), n));
            assert(next@ =~= cur@.subrange(0, a as int) + repl@ + cur@.subrange(
                e + ic@.len(),
                cur@.len() as int,
            ));
            cur = next;
        }
    }
}

/// Whether `s` holds no `{{`.
pub open spec fn no_open_braces(s: Seq<char>) -> bool {
    forall|i: int| 0 <= i < s.len() - 1 ==> !(#[trigger] s[i] == '{' && s[i + 1] == '{')
}

proof fn lemma_no_brace_pattern(s: Seq<char>, p: Seq<char>, i: int)
    requires
        no_open_braces(s),
        p.len() >= 2,
        p[0] == '{',
        p[1] == '{',
    ensures
        find_from(s, p, i) is None,
    decreases s.len() - i,
{
    if !(i < 0 || p.len() == 0 || i + p.len() > s.len()) {
        if matches_at(s, p, i) {
            assert(s.subrange(i, i + p.len())[0] == p[0]);
            assert(s.subrange(i, i + p.len())[1] == p[1]);
            assert(s[i] == '{' && s[i + 1] == '{');
        }
        lemma_no_brace_pattern(s, p, i + 1);
    }
}

proof fn lemma_substitute_plain(t: Seq<char>, c: Seq<(Seq<char>, Seq<char>)>, i: int)
    requires
        no_open_braces(t),
        0 <= i,
    ensures
        substitute_from(t, c, i) == t,
    decreases c.len() - i,
{
    if i < c.len() {
        let ph = placeholder(c[i].0);
        reveal_strlit("{{");
        assert(ph[0] == '{' && ph[1] == '{');
        lemma_no_brace_pattern(t, ph, 0);
        assert(replace_all(t, ph, c[i].1) =~= t);
        lemma_substitute_plain(t, c, i + 1);
    }
}

/// A template that holds no `{{` renders unchanged, whatever the context.
pub proof fn lemma_plain_template_unchanged(t: Seq<char>, c: Seq<(Seq<char>, Seq<char>)>)
    requires
        no_open_braces(t),
    ensures
        rendered(t, c) == t,
{
    reveal_strlit("{{#each ");
    reveal_strlit("{{#if ");
    lemma_no_brace_pattern(t, "{{#each "@, 0);
    assert(each_blocks(t, c) == t);
    lemma_substitute_plain(t, c, 0);
    lemma_no_brace_pattern(t, "{{#if "@, 0);
}

} // verus!
