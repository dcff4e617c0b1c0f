//! DTD entity declarations and bounded expansion.
//!
//! Internal general entities are declared as `<!ENTITY name "value">` (or with
//! single quotes). A value may reference other entities, so naive recursive
//! expansion is the billion-laughs vulnerability class. An expansion is first
//! measured, without building anything, under a nesting-depth cap and a byte
//! budget, either limit turning into an error; only a text that fits is then
//! built.
use vstd::prelude::*;
use vstd::hash_map::StringHashMap;
use vstd::string::*;
use vstd::utf8::*;
use crate::error::{ErrorKind, Position, XmlError};
use crate::boundary::{
    lemma_ascii_valid, lemma_utf8_from_ascii_step, lemma_utf8_from_end, lemma_utf8_from_lead,
    lemma_utf8_from_start, lemma_utf8_slice, utf8_from,
};
use crate::text::{
    char_from_u32, debug_str, digits_text, is_hex_digit, number_text, parse_radix, seq_starts_with,
    starts_with_at, str_debug_text, str_from_utf8, string_push, u32_from_str_radix,
};

verus! {

broadcast use vstd::utf8::group_utf8_lib;

/// Hard limits on entity expansion.
#[derive(Clone, Copy, Debug)]
pub struct ExpansionLimits {
    /// Maximum depth of nested entity references during one expansion.
    pub max_depth: usize,
    /// Maximum number of bytes one entity reference may expand to (summed
    /// over all nested references).
    pub max_expanded_bytes: usize,
}

/// The default nesting-depth cap.
pub const DEFAULT_MAX_DEPTH: usize = 20;

/// The default byte budget (1 MiB).
pub const DEFAULT_MAX_EXPANDED_BYTES: usize = 1048576;

impl Default for ExpansionLimits {
    fn default() -> (r: Self)
        ensures
            r.max_depth == DEFAULT_MAX_DEPTH,
            r.max_expanded_bytes == DEFAULT_MAX_EXPANDED_BYTES,
    {
        ExpansionLimits { max_depth: DEFAULT_MAX_DEPTH, max_expanded_bytes: DEFAULT_MAX_EXPANDED_BYTES }
    }
}

/// Declared entities: name to literal value. A value may hold `&other;`
/// references, which are resolved when an expansion is measured, never when
/// the entity is declared.
pub struct EntityTable {
    entities: StringHashMap<String>,
}

impl View for EntityTable {
    type V = Map<Seq<char>, Seq<char>>;

    closed spec fn view(&self) -> Map<Seq<char>, Seq<char>> {
        self.entities@.map_values(|v: String| v@)
    }
}

impl Default for EntityTable {
    fn default() -> (t: Self)
        ensures
            t@ == Map::<Seq<char>, Seq<char>>::empty(),
    {
        let t = EntityTable { entities: StringHashMap::new() };
        assert(t@ =~= Map::<Seq<char>, Seq<char>>::empty());
        t
    }
}

// ---------------------------------------------------------------------------
// Built-in entities
// ---------------------------------------------------------------------------

/// The replacement text (as bytes) of the five entities that XML predefines:
/// `lt`, `gt`, `amp`, `quot`, `apos`.
pub open spec fn builtin_text(name: Seq<u8>) -> Option<Seq<u8>> {
    if name == seq![0x6Cu8, 0x74u8] {
        Some(seq![0x3Cu8])
    } else if name == seq![0x67u8, 0x74u8] {
        Some(seq![0x3Eu8])
    } else if name == seq![0x61u8, 0x6Du8, 0x70u8] {
        Some(seq![0x26u8])
    } else if name == seq![0x71u8, 0x75u8, 0x6Fu8, 0x74u8] {
        Some(seq![0x22u8])
    } else if name == seq![0x61u8, 0x70u8, 0x6Fu8, 0x73u8] {
        Some(seq![0x27u8])
    } else {
        None
    }
}

proof fn lemma_ascii_str_bytes(s: &str, c: char)
    requires
        s@ == seq![c],
        (c as u32) < 0x80,
    ensures
        s.spec_bytes() == seq![(c as u32) as u8],
{
    let chars = s@;
    assert(chars.drop_first() =~= Seq::<char>::empty());
    assert(encode_utf8(chars) == encode_scalar(c as u32) + encode_utf8(chars.drop_first()));
    assert(encode_utf8(Seq::<char>::empty()) =~= Seq::<u8>::empty());
    let u = c as u32;
    assert((u & 0x7F) as u8 == u as u8) by (bit_vector)
        requires
            u < 0x80,
    ;
    assert(s.spec_bytes() =~= seq![(c as u32) as u8]);
}

/// The replacement text of a predefined entity (section 4.6): `lt`, `gt`,
/// `amp`, `quot`, `apos`; `None` for any other name.
pub fn builtin_entity(name: &str) -> (res: Option<&'static str>)
    ensures
        match builtin_text(name.spec_bytes()) {
            Some(t) => res matches Some(s) && s.spec_bytes() == t,
            None => res is None,
        },
{
    let b = name.as_bytes();
    let n = b.len();
    proof {
        reveal_strlit("<");
        reveal_strlit(">");
        reveal_strlit("&");
        reveal_strlit("\"");
        reveal_strlit("'");
        assert("<"@ =~= seq!['<']);
        lemma_ascii_str_bytes("<", '<');
        assert(">"@ =~= seq!['>']);
        lemma_ascii_str_bytes(">", '>');
        assert("&"@ =~= seq!['&']);
        lemma_ascii_str_bytes("&", '&');
        assert("\""@ =~= seq!['"']);
        lemma_ascii_str_bytes("\"", '"');
        assert("'"@ =~= seq!['\'']);
        lemma_ascii_str_bytes("'", '\'');
    }
    if n == 2 && b[0] == 0x6C && b[1] == 0x74 {
        assert(b@ =~= seq![0x6Cu8, 0x74u8]);
        Some("<")
    } else if n == 2 && b[0] == 0x67 && b[1] == 0x74 {
        assert(b@ =~= seq![0x67u8, 0x74u8]);
        Some(">")
    } else if n == 3 && b[0] == 0x61 && b[1] == 0x6D && b[2] == 0x70 {
        assert(b@ =~= seq![0x61u8, 0x6Du8, 0x70u8]);
        Some("&")
    } else if n == 4 && b[0] == 0x71 && b[1] == 0x75 && b[2] == 0x6F && b[3] == 0x74 {
        assert(b@ =~= seq![0x71u8, 0x75u8, 0x6Fu8, 0x74u8]);
        Some("\"")
    } else if n == 4 && b[0] == 0x61 && b[1] == 0x70 && b[2] == 0x6F && b[3] == 0x73 {
        assert(b@ =~= seq![0x61u8, 0x70u8, 0x6Fu8, 0x73u8]);
        Some("'")
    } else {
        assert(builtin_text(b@) is None) by {
            if n == 2 {
                assert(b@ != seq![0x6Cu8, 0x74u8] ==> b@[0] != 0x6C || b@[1] != 0x74);
            }
        }
        None
    }
}


// ---------------------------------------------------------------------------
// Byte scanning shared with the DTD reader
// ---------------------------------------------------------------------------

/// The index of the first `b` in `s` at or after `from`.
pub open spec fn find_byte(s: Seq<u8>, from: int, b: u8) -> Option<int>
    decreases s.len() - from,
{
    if from < 0 || from >= s.len() {
        None
    } else if s[from] == b {
        Some(from)
    } else {
        find_byte(s, from + 1, b)
    }
}

/// What `find_byte` returns: the first occurrence, at or after `from`.
pub proof fn lemma_find_byte(s: Seq<u8>, from: int, b: u8)
    ensures
        match find_byte(s, from, b) {
            Some(k) => 0 <= from <= k < s.len() && s[k] == b && forall|j: int|
                from <= j < k ==> s[j] != b,
            None => forall|j: int| 0 <= from <= j < s.len() ==> s[j] != b,
        },
    decreases s.len() - from,
{
    if 0 <= from < s.len() && s[from] != b {
        lemma_find_byte(s, from + 1, b);
    }
}

/// The index of the first `b` in `bytes` at or after `from`.
pub(crate) fn find_byte_from(bytes: &[u8], from: usize, b: u8) -> (res: Option<usize>)
    ensures
        res == (match find_byte(bytes@, from as int, b) {
            Some(k) => Some(k as usize),
            None => None::<usize>,
        }),
{
    let n = bytes.len();
    let mut i = from;
    while i < n
        invariant
            n == bytes@.len(),
            from <= i,
            find_byte(bytes@, from as int, b) == find_byte(bytes@, i as int, b),
        decreases n - i,
    {
        if bytes[i] == b {
            return Some(i);
        }
        i = i + 1;
    }
    None
}

/// Where a declaration that continues at `from` ends: just after the next
/// `>`.
pub open spec fn decl_end(s: Seq<u8>, from: int) -> Option<int> {
    match find_byte(s, from, 0x3Eu8) {
        Some(k) => Some(k + 1),
        None => None,
    }
}

/// Just after the next `>` at or after `from`, if there is one.
fn find_end_of_decl(bytes: &[u8], from: usize) -> (res: Option<usize>)
    requires
        from <= bytes@.len(),
    ensures
        res == (match decl_end(bytes@, from as int) {
            Some(k) => Some(k as usize),
            None => None::<usize>,
        }),
{
    proof {
        lemma_find_byte(bytes@, from as int, 0x3Eu8);
    }
    assert(bytes@.len() == bytes.len());
    match find_byte_from(bytes, from, 0x3E) {
        Some(p) => Some(p + 1),
        None => None,
    }
}

// ---------------------------------------------------------------------------
// Measuring an expansion
// ---------------------------------------------------------------------------

/// Why the expansion of `name` stopped at the depth limit.
pub open spec fn depth_exceeded_text(name: Seq<char>) -> Seq<char> {
    "entity expansion of "@ + str_debug_text(name)
        + " exceeded the maximum nesting depth — possible billion-laughs / quadratic-blowup payload"@
}

/// The measured expansion of the entity `name` with `depth` nesting levels
/// and `budget` bytes left: the byte count, or the reason for an error, and
/// the budget that is left afterwards. A depth of zero, an undeclared
/// entity, a malformed reference or an exhausted budget is an error.
pub open spec fn expansion_len(
    m: Map<Seq<char>, Seq<char>>,
    name: Seq<char>,
    depth: nat,
    budget: nat,
) -> (Result<nat, Seq<char>>, nat)
    decreases depth, 1int, 0int,
{
    if depth == 0 {
        (Err(depth_exceeded_text(name)), budget)
    } else if !m.contains_key(name) {
        (Err("undeclared entity "@ + str_debug_text(name)), budget)
    } else {
        value_expansion_len(m, name, encode_utf8(m[name]), 0, depth, budget, 0)
    }
}

/// Measures the rest of the value `v` of the entity `name` from byte `i` on,
/// with `total` bytes counted so far. Every byte of the expansion costs one
/// byte of budget, once: a plain byte of the value costs one; a reference
/// `&inner;` costs what it expands to, one byte for a predefined entity,
/// four for a character reference (`&#...;`), and for a declared entity what
/// its own measure, one level deeper, spends.
pub open spec fn value_expansion_len(
    m: Map<Seq<char>, Seq<char>>,
    name: Seq<char>,
    v: Seq<u8>,
    i: int,
    depth: nat,
    budget: nat,
    total: nat,
) -> (Result<nat, Seq<char>>, nat)
    decreases depth, 0int, v.len() - i,
{
    if i < 0 || i >= v.len() {
        (Ok(total), budget)
    } else if v[i] == 0x26u8 {
        match find_byte(v, i + 1, 0x3Bu8) {
            None => (
                Err("malformed reference inside entity "@ + str_debug_text(name) + " — no ';'"@),
                budget,
            ),
            Some(end) => {
                let inner = v.subrange(i + 1, end);
                if !valid_utf8(inner) {
                    (Err("non-UTF-8 in entity reference"@), budget)
                } else {
                    let step = reference_len(m, name, inner, depth, budget);
                    match step.0 {
                        Err(reason) => (Err(reason), step.1),
                        Ok(added) => {
                            proof {
                                lemma_find_byte(v, i + 1, 0x3Bu8);
                            }
                            value_expansion_len(m, name, v, end + 1, depth, step.1, total + added)
                        },
                    }
                }
            },
        }
    } else if budget == 0 {
        (Err("entity expansion of "@ + str_debug_text(name) + " exceeded byte budget"@), budget)
    } else {
        value_expansion_len(m, name, v, i + 1, depth, (budget - 1) as nat, total + 1)
    }
}

/// Why a reference inside the value of `name` did not fit the budget.
pub open spec fn reference_over_budget_text(name: Seq<char>) -> Seq<char> {
    "entity expansion of "@ + str_debug_text(name) + " exceeded "@ + digits_text(
        DEFAULT_MAX_EXPANDED_BYTES as nat,
        10,
    ) + " bytes — possible billion-laughs / quadratic-blowup payload"@
}

/// The length that the reference `&inner;` inside the value of `name` adds,
/// measured at `depth`, and the budget left after paying for it. A
/// predefined entity or a character reference is paid for here; a declared
/// entity pays for its own bytes as it is measured.
pub open spec fn reference_len(
    m: Map<Seq<char>, Seq<char>>,
    name: Seq<char>,
    inner: Seq<u8>,
    depth: nat,
    budget: nat,
) -> (Result<nat, Seq<char>>, nat)
    decreases depth, 0int, 0int,
{
    if builtin_text(inner) is Some || (inner.len() > 0 && inner[0] == 0x23u8) {
        let added: nat = if builtin_text(inner) is Some {
            builtin_text(inner).unwrap().len()
        } else {
            4
        };
        if added > budget {
            (Err(reference_over_budget_text(name)), budget)
        } else {
            (Ok(added), (budget - added) as nat)
        }
    } else if depth == 0 {
        (Err(depth_exceeded_text(decode_utf8(inner))), budget)
    } else {
        expansion_len(m, decode_utf8(inner), (depth - 1) as nat, budget)
    }
}

// ---------------------------------------------------------------------------
// The replacement text of an entity
// ---------------------------------------------------------------------------

/// The digits of a character reference whose bytes after `&` up to `;` are
/// `inner`: after `#x`, or after `#`.
pub open spec fn char_ref_digits(inner: Seq<u8>) -> Seq<u8> {
    if inner.len() > 1 && inner[1] == 0x78u8 {
        inner.subrange(2, inner.len() as int)
    } else {
        inner.subrange(1, inner.len() as int)
    }
}

/// Every byte is an ASCII hexadecimal digit.
pub open spec fn all_hex(s: Seq<u8>) -> bool {
    forall|j: int| 0 <= j < s.len() ==> is_hex_digit(#[trigger] s[j])
}

/// The value of a character reference `&#...;` whose bytes after `&` up to
/// `;` are `inner`: decimal digits, or hexadecimal ones after `x`, naming a
/// Unicode scalar value.
pub open spec fn char_ref_value(inner: Seq<u8>) -> Option<u32> {
    let radix: int = if inner.len() > 1 && inner[1] == 0x78u8 {
        16
    } else {
        10
    };
    if all_hex(char_ref_digits(inner)) {
        match parse_radix(char_ref_digits(inner), radix) {
            Some(n) => if is_scalar(n) {
                Some(n)
            } else {
                None
            },
            None => None,
        }
    } else {
        None
    }
}

/// Why a character reference in the value of `name` gives no character.
pub open spec fn bad_char_ref_text(name: Seq<char>) -> Seq<char> {
    "invalid character reference in entity "@ + str_debug_text(name)
}

/// Where the run of plain bytes that starts at `i` ends: at the next `&`,
/// or the end.
pub open spec fn run_end(v: Seq<u8>, i: int) -> int {
    match find_byte(v, i, 0x26u8) {
        Some(k) => k,
        None => v.len() as int,
    }
}

/// A text put in front of a result.
pub open spec fn prepend_text(a: Seq<char>, r: Result<Seq<char>, Seq<char>>) -> Result<
    Seq<char>,
    Seq<char>,
> {
    match r {
        Ok(t) => Ok(a + t),
        Err(e) => Err(e),
    }
}

/// The replacement text of the declared entity `name`, expanded with
/// `depth` nesting levels, or why it cannot be given: the text of its value
/// with every reference replaced, a predefined entity by its character, a
/// character reference by the character it names, and a declared entity by
/// its own replacement text, one level deeper.
pub open spec fn entity_text(m: Map<Seq<char>, Seq<char>>, name: Seq<char>, depth: nat) -> Result<
    Seq<char>,
    Seq<char>,
>
    decreases depth, 1int, 0int,
{
    if depth == 0 {
        Err(depth_exceeded_text(name))
    } else if !m.contains_key(name) {
        Err("undeclared entity "@ + str_debug_text(name))
    } else {
        value_text(m, name, encode_utf8(m[name]), 0, depth)
    }
}

/// The replacement text of the rest of the value `v` of `name`, from byte
/// `i` on.
pub open spec fn value_text(
    m: Map<Seq<char>, Seq<char>>,
    name: Seq<char>,
    v: Seq<u8>,
    i: int,
    depth: nat,
) -> Result<Seq<char>, Seq<char>>
    decreases depth, 0int, v.len() - i,
{
    if i < 0 || i >= v.len() {
        Ok(Seq::empty())
    } else if v[i] == 0x26u8 {
        match find_byte(v, i + 1, 0x3Bu8) {
            None => Err("malformed reference inside entity "@ + str_debug_text(name) + " — no ';'"@),
            Some(end) => {
                let inner = v.subrange(i + 1, end);
                if !valid_utf8(inner) {
                    Err("non-UTF-8 in entity reference"@)
                } else {
                    match reference_text(m, name, inner, depth) {
                        Err(e) => Err(e),
                        Ok(t) => {
                            proof {
                                lemma_find_byte(v, i + 1, 0x3Bu8);
                            }
                            prepend_text(t, value_text(m, name, v, end + 1, depth))
                        },
                    }
                }
            },
        }
    } else {
        let e = run_end(v, i);
        proof {
            lemma_find_byte(v, i, 0x26u8);
        }
        prepend_text(decode_utf8(v.subrange(i, e)), value_text(m, name, v, e, depth))
    }
}

/// The replacement text of the reference `&inner;` inside the value of
/// `name`, expanded at `depth`.
pub open spec fn reference_text(
    m: Map<Seq<char>, Seq<char>>,
    name: Seq<char>,
    inner: Seq<u8>,
    depth: nat,
) -> Result<Seq<char>, Seq<char>>
    decreases depth, 0int, 0int,
{
    if builtin_text(inner) is Some {
        Ok(decode_utf8(builtin_text(inner).unwrap()))
    } else if inner.len() > 0 && inner[0] == 0x23u8 {
        match char_ref_value(inner) {
            Some(n) => Ok(seq![n as char]),
            None => Err(bad_char_ref_text(name)),
        }
    } else if depth == 0 {
        Err(depth_exceeded_text(decode_utf8(inner)))
    } else {
        entity_text(m, decode_utf8(inner), (depth - 1) as nat)
    }
}

/// An expansion never reports more bytes than the budget it spent, and never
/// gives budget back.
pub proof fn lemma_expansion_within_budget(
    m: Map<Seq<char>, Seq<char>>,
    name: Seq<char>,
    depth: nat,
    budget: nat,
)
    ensures
        expansion_len(m, name, depth, budget).1 <= budget,
        expansion_len(m, name, depth, budget).0 matches Ok(n) ==> n + expansion_len(
            m,
            name,
            depth,
            budget,
        ).1 <= budget,
    decreases depth, 1int, 0int,
{
    if depth != 0 && m.contains_key(name) {
        lemma_value_expansion_within_budget(m, name, encode_utf8(m[name]), 0, depth, budget, 0);
    }
}

/// The measure of a value never exceeds what was counted plus the budget.
pub proof fn lemma_value_expansion_within_budget(
    m: Map<Seq<char>, Seq<char>>,
    name: Seq<char>,
    v: Seq<u8>,
    i: int,
    depth: nat,
    budget: nat,
    total: nat,
)
    ensures
        value_expansion_len(m, name, v, i, depth, budget, total).1 <= budget,
        value_expansion_len(m, name, v, i, depth, budget, total).0 matches Ok(n) ==> n
            + value_expansion_len(m, name, v, i, depth, budget, total).1 <= total + budget,
    decreases depth, 0int, v.len() - i,
{
    if i < 0 || i >= v.len() {
    } else if v[i] == 0x26u8 {
        match find_byte(v, i + 1, 0x3Bu8) {
            None => {},
            Some(end) => {
                lemma_find_byte(v, i + 1, 0x3Bu8);
                let inner = v.subrange(i + 1, end);
                if valid_utf8(inner) {
                    if builtin_text(inner) is None && !(inner.len() > 0 && inner[0] == 0x23u8)
                        && depth != 0 {
                        lemma_expansion_within_budget(m, decode_utf8(inner), (depth - 1) as nat, budget);
                    }
                    let step = reference_len(m, name, inner, depth, budget);
                    if let Ok(added) = step.0 {
                        lemma_value_expansion_within_budget(
                            m,
                            name,
                            v,
                            end + 1,
                            depth,
                            step.1,
                            total + added,
                        );
                    }
                }
            },
        }
    } else if budget != 0 {
        lemma_value_expansion_within_budget(m, name, v, i + 1, depth, (budget - 1) as nat, total + 1);
    }
}

impl EntityTable {
    /// An empty table.
    pub fn new() -> (t: Self)
        ensures
            t@ == Map::<Seq<char>, Seq<char>>::empty(),
    {
        Self::default()
    }

    /// Adds a declaration; a later declaration of the same name replaces an
    /// earlier one.
    pub fn declare(&mut self, name: String, value: String)
        ensures
            final(self)@ == old(self)@.insert(name@, value@),
    {
        self.entities.insert(name, value);
        assert(self@ =~= old(self)@.insert(name@, value@));
    }

    /// True when `name` has been declared.
    pub fn is_declared(&self, name: &str) -> (r: bool)
        ensures
            r == self@.contains_key(name@),
    {
        self.entities.contains_key(name)
    }

    /// Measures what a reference to `name` would expand to, recursing through
    /// nested references, within the given limits. The byte count on success;
    /// a not-well-formed error at `pos` when the entity is undeclared, a
    /// reference is malformed, or a limit is exceeded.
    pub fn validate_expansion(&self, name: &str, limits: ExpansionLimits, pos: Position) -> (res:
        Result<usize, XmlError>)
        ensures
            match expansion_len(
                self@,
                name@,
                limits.max_depth as nat,
                limits.max_expanded_bytes as nat,
            ).0 {
                Ok(n) => res matches Ok(k) && k == n,
                Err(reason) => res matches Err(e) && e.kind() == ErrorKind::NotWellFormed(pos, reason),
            },
            res matches Ok(n) ==> n <= limits.max_expanded_bytes,
    {
        proof {
            lemma_expansion_within_budget(
                self@,
                name@,
                limits.max_depth as nat,
                limits.max_expanded_bytes as nat,
            );
        }
        let mut budget = limits.max_expanded_bytes;
        self.validate_recursive(name, limits.max_depth, &mut budget, pos)
    }

    /// The replacement text of `name`, expanded with at most
    /// `limits.max_depth` nesting levels: predefined entities, character
    /// references and declared entities all replaced. `validate_expansion`
    /// measures the same expansion without building it; the parser measures
    /// first, so that only a text within the limits is ever built.
    pub fn expand(&self, name: &str, limits: ExpansionLimits, pos: Position) -> (res: Result<
        String,
        XmlError,
    >)
        ensures
            match entity_text(self@, name@, limits.max_depth as nat) {
                Ok(t) => res matches Ok(s) && s@ == t,
                Err(reason) => res matches Err(e) && e.kind() == ErrorKind::NotWellFormed(pos, reason),
            },
    {
        let mut out = String::new();
        match self.expand_into(name, limits.max_depth, &mut out, pos) {
            Ok(()) => Ok(out),
            Err(e) => Err(e),
        }
    }

    /// The character that a character reference names, given its bytes
    /// after `&` up to `;`.
    fn char_ref(inner: &[u8]) -> (r: Option<char>)
        requires
            inner@.len() > 0,
        ensures
            r == (match char_ref_value(inner@) {
                Some(n) => Some(n as char),
                None => None::<char>,
            }),
    {
        let hex = inner.len() > 1 && inner[1] == 0x78;
        let ds: usize = if hex {
            2
        } else {
            1
        };
        let radix: u32 = if hex {
            16
        } else {
            10
        };
        let digits = vstd::slice::slice_subrange(inner, ds, inner.len());
        assert(hex == (inner@.len() > 1 && inner@[1] == 0x78u8));
        assert(digits@ == inner@.subrange(ds as int, inner@.len() as int));
        assert(digits@ == char_ref_digits(inner@));
        let mut k: usize = 0;
        while k < digits.len()
            invariant
                k <= digits@.len(),
                digits@ == char_ref_digits(inner@),
                forall|j: int| 0 <= j < k ==> is_hex_digit(#[trigger] digits@[j]),
            decreases digits@.len() - k,
        {
            let b = digits[k];
            if !((0x30 <= b && b <= 0x39) || (0x41 <= b && b <= 0x46) || (0x61 <= b && b <= 0x66)) {
                assert(!is_hex_digit(digits@[k as int]));
                assert(!all_hex(char_ref_digits(inner@)));
                return None;
            }
            k = k + 1;
        }
        proof {
            lemma_ascii_valid(digits@);
        }
        let text = match str_from_utf8(digits) {
            Some(t) => t,
            None => {
                return None;
            },
        };
        match u32_from_str_radix(text, radix) {
            Some(n) => char_from_u32(n),
            None => None,
        }
    }

    /// Appends the replacement text of `name`, expanded with `depth` nesting
    /// levels, to `out`.
    #[verifier::rlimit(80)]
    #[verifier::spinoff_prover]
    fn expand_into(&self, name: &str, depth: usize, out: &mut String, pos: Position) -> (res: Result<
        (),
        XmlError,
    >)
        ensures
            match entity_text(self@, name@, depth as nat) {
                Ok(t) => res is Ok && final(out)@ == old(out)@ + t,
                Err(reason) => res matches Err(e) && e.kind() == ErrorKind::NotWellFormed(pos, reason),
            },
        decreases depth,
    {
        if depth == 0 {
            let mut reason = String::from_str("entity expansion of ");
            reason.append(debug_str(name).as_str());
            reason.append(" exceeded the maximum nesting depth — possible billion-laughs / quadratic-blowup payload");
            return Err(XmlError::NotWellFormed { pos, reason });
        }
        let value = match self.entities.get(name) {
            Some(v) => v.as_str(),
            None => {
                let mut reason = String::from_str("undeclared entity ");
                reason.append(debug_str(name).as_str());
                return Err(XmlError::NotWellFormed { pos, reason });
            },
        };
        let ghost m = self@;
        let ghost d = depth as nat;
        let bytes = value.as_bytes();
        assert(bytes@ == encode_utf8(m[name@]));
        let ghost v = bytes@;
        let ghost start = out@;
        proof {
            lemma_utf8_from_start(v);
        }
        let n = bytes.len();
        let mut i: usize = 0;
        let ghost mut acc: Seq<char> = Seq::empty();
        assert(prepend_text(acc, value_text(m, name@, v, 0, d)) == value_text(m, name@, v, 0, d)) by {
            if let Ok(t) = value_text(m, name@, v, 0, d) {
                assert(acc + t =~= t);
            }
        }
        while i < n
            invariant
                n == v.len(),
                v == bytes@,
                m == self@,
                d == depth,
                d > 0,
                m.contains_key(name@),
                v == encode_utf8(m[name@]),
                i <= n,
                utf8_from(v, i as int),
                out@ == start + acc,
                start == old(out)@,
                value_text(m, name@, v, 0, d) == prepend_text(acc, value_text(m, name@, v, i as int, d)),
            decreases n - i,
        {
            let ghost before = out@;
            let ghost rest_before = value_text(m, name@, v, i as int, d);
            if bytes[i] == 0x26 {
                let from = i + 1;
                proof {
                    lemma_find_byte(v, from as int, 0x3Bu8);
                }
                let end = match find_byte_from(bytes, from, 0x3B) {
                    Some(e) => e,
                    None => {
                        let mut reason = String::from_str("malformed reference inside entity ");
                        reason.append(debug_str(name).as_str());
                        reason.append(" — no ';'");
                        return Err(XmlError::NotWellFormed { pos, reason });
                    },
                };
                let inner = match str_from_utf8(vstd::slice::slice_subrange(bytes, from, end)) {
                    Some(t) => t,
                    None => {
                        return Err(
                            XmlError::NotWellFormed {
                                pos,
                                reason: String::from_str("non-UTF-8 in entity reference"),
                            },
                        );
                    },
                };
                let ghost inner_bytes = v.subrange(from as int, end as int);
                assert(inner.spec_bytes() == inner_bytes);
                proof {
                    encode_utf8_decode_utf8(inner@);
                }
                let ib = inner.as_bytes();
                let ghost piece: Seq<char>;
                if let Some(t) = builtin_entity(inner) {
                    proof {
                        encode_utf8_decode_utf8(t@);
                    }
                    out.append(t);
                    proof {
                        piece = t@;
                    }
                } else if ib.len() > 0 && ib[0] == 0x23 {
                    let c = match Self::char_ref(ib) {
                        Some(c) => c,
                        None => {
                            let mut reason = String::from_str("invalid character reference in entity ");
                            reason.append(debug_str(name).as_str());
                            return Err(XmlError::NotWellFormed { pos, reason });
                        },
                    };
                    string_push(out, c);
                    proof {
                        piece = seq![c];
                    }
                } else {
                    assert(decode_utf8(inner_bytes) == inner@);
                    match self.expand_into(inner, depth - 1, out, pos) {
                        Ok(()) => {},
                        Err(e) => {
                            return Err(e);
                        },
                    }
                    proof {
                        piece = entity_text(m, inner@, (d - 1) as nat)->Ok_0;
                    }
                }
                assert(reference_text(m, name@, inner_bytes, d) == Ok::<Seq<char>, Seq<char>>(piece));
                assert(out@ == before + piece);
                proof {
                    assert(rest_before == prepend_text(piece, value_text(m, name@, v, end + 1, d)));
                    if let Ok(t) = value_text(m, name@, v, end + 1, d) {
                        assert(acc + (piece + t) =~= (acc + piece) + t);
                    }
                    acc = acc + piece;
                    assert(out@ =~= start + acc);
                    lemma_utf8_from_lead(v, i as int, end as int);
                    lemma_utf8_from_ascii_step(v, end as int);
                }
                i = end + 1;
            } else {
                proof {
                    lemma_find_byte(v, i as int, 0x26u8);
                }
                let j = match find_byte_from(bytes, i, 0x26) {
                    Some(k) => k,
                    None => n,
                };
                proof {
                    if j < n {
                        lemma_utf8_from_lead(v, i as int, j as int);
                    } else {
                        lemma_utf8_from_end(v);
                    }
                    lemma_utf8_slice(v, i as int, j as int);
                }
                let piece = match str_from_utf8(vstd::slice::slice_subrange(bytes, i, j)) {
                    Some(t) => t,
                    None => "",
                };
                proof {
                    encode_utf8_decode_utf8(piece@);
                }
                out.append(piece);
                proof {
                    assert(j as int == run_end(v, i as int));
                    assert(rest_before == prepend_text(piece@, value_text(m, name@, v, j as int, d)));
                    if let Ok(t) = value_text(m, name@, v, j as int, d) {
                        assert(acc + (piece@ + t) =~= (acc + piece@) + t);
                    }
                    acc = acc + piece@;
                    assert(out@ =~= start + acc);
                }
                i = j;
            }
        }
        proof {
            if let Ok(t) = value_text(m, name@, v, 0, d) {
                assert(acc + Seq::<char>::empty() =~= acc);
            }
        }
        Ok(())
    }

    fn validate_recursive(&self, name: &str, depth_remaining: usize, budget: &mut usize, pos: Position) -> (res:
        Result<usize, XmlError>)
        ensures
            ({
                let (r, b) = expansion_len(self@, name@, depth_remaining as nat, *old(budget) as nat);
                &&& *final(budget) == b
                &&& match r {
                    Ok(n) => res matches Ok(k) && k == n,
                    Err(reason) => res matches Err(e) && e.kind() == ErrorKind::NotWellFormed(
                        pos,
                        reason,
                    ),
                }
            }),
        decreases depth_remaining,
    {
        proof {
            lemma_expansion_within_budget(self@, name@, depth_remaining as nat, *old(budget) as nat);
        }
        if depth_remaining == 0 {
            let mut reason = String::from_str("entity expansion of ");
            reason.append(debug_str(name).as_str());
            reason.append(" exceeded the maximum nesting depth — possible billion-laughs / quadratic-blowup payload");
            return Err(XmlError::NotWellFormed { pos, reason });
        }
        let value = match self.entities.get(name) {
            Some(v) => v.as_str(),
            None => {
                let mut reason = String::from_str("undeclared entity ");
                reason.append(debug_str(name).as_str());
                return Err(XmlError::NotWellFormed { pos, reason });
            },
        };
        let ghost m = self@;
        let ghost d = depth_remaining as nat;
        let bytes = value.as_bytes();
        assert(bytes@ == encode_utf8(m[name@]));
        let ghost v = bytes@;
        let n = bytes.len();
        let mut total: usize = 0;
        let mut i: usize = 0;
        while i < n
            invariant
                n == v.len(),
                v == bytes@,
                m == self@,
                d == depth_remaining,
                d > 0,
                m.contains_key(name@),
                v == encode_utf8(m[name@]),
                i <= n,
                total + *budget <= *old(budget),
                value_expansion_len(m, name@, v, 0, d, *old(budget) as nat, 0)
                    == value_expansion_len(m, name@, v, i as int, d, *budget as nat, total as nat),
            decreases n - i,
        {
            proof {
                lemma_value_expansion_within_budget(m, name@, v, i as int, d, *budget as nat, total as nat);
            }
            if bytes[i] == 0x26 {
                let start = i + 1;
                proof {
                    lemma_find_byte(v, start as int, 0x3Bu8);
                }
                let end = match find_byte_from(bytes, start, 0x3B) {
                    Some(e) => e,
                    None => {
                        let mut reason = String::from_str("malformed reference inside entity ");
                        reason.append(debug_str(name).as_str());
                        reason.append(" — no ';'");
                        return Err(XmlError::NotWellFormed { pos, reason });
                    },
                };
                let inner = match str_from_utf8(vstd::slice::slice_subrange(bytes, start, end)) {
                    Some(s) => s,
                    None => {
                        return Err(
                            XmlError::NotWellFormed {
                                pos,
                                reason: String::from_str("non-UTF-8 in entity reference"),
                            },
                        );
                    },
                };
                let ghost inner_bytes = v.subrange(start as int, end as int);
                assert(inner.spec_bytes() == inner_bytes);
                proof {
                    encode_utf8_decode_utf8(inner@);
                }
                let ib = inner.as_bytes();
                let ghost b_before = *budget;
                let builtin = builtin_entity(inner);
                let added = if builtin.is_some() || (ib.len() > 0 && ib[0] == 0x23) {
                    // A predefined entity or a character reference: its few
                    // bytes are paid for here.
                    let added = match builtin {
                        Some(s) => s.len(),
                        None => 4,
                    };
                    assert(added == (if builtin_text(inner_bytes) is Some {
                        builtin_text(inner_bytes).unwrap().len()
                    } else {
                        4
                    }));
                    if added > *budget {
                        let mut reason = String::from_str("entity expansion of ");
                        reason.append(debug_str(name).as_str());
                        reason.append(" exceeded ");
                        reason.append(number_text(DEFAULT_MAX_EXPANDED_BYTES as u64, 10).as_str());
                        reason.append(" bytes — possible billion-laughs / quadratic-blowup payload");
                        assert(reference_len(m, name@, inner_bytes, d, b_before as nat) == (
                            Err::<nat, Seq<char>>(reference_over_budget_text(name@)),
                            b_before as nat,
                        ));
                        return Err(XmlError::NotWellFormed { pos, reason });
                    }
                    *budget = *budget - added;
                    added
                } else {
                    // A declared entity pays for its own bytes as it is
                    // measured.
                    assert(decode_utf8(inner_bytes) == inner@);
                    proof {
                        lemma_expansion_within_budget(m, inner@, (d - 1) as nat, b_before as nat);
                    }
                    match self.validate_recursive(inner, depth_remaining - 1, budget, pos) {
                        Ok(a) => a,
                        Err(e) => {
                            assert(reference_len(m, name@, inner_bytes, d, b_before as nat).0 is Err);
                            return Err(e);
                        },
                    }
                };
                assert(reference_len(m, name@, inner_bytes, d, b_before as nat) == (
                    Ok::<nat, Seq<char>>(added as nat),
                    *budget as nat,
                ));
                total = total.saturating_add(added);
                i = end + 1;
            } else {
                if *budget == 0 {
                    let mut reason = String::from_str("entity expansion of ");
                    reason.append(debug_str(name).as_str());
                    reason.append(" exceeded byte budget");
                    return Err(XmlError::NotWellFormed { pos, reason });
                }
                *budget = *budget - 1;
                total = total.saturating_add(1);
                i = i + 1;
            }
        }
        Ok(total)
    }
}


// ---------------------------------------------------------------------------
// Reading declarations out of a DOCTYPE internal subset
// ---------------------------------------------------------------------------

/// XML white space (section 2.3 production 3): space, tab, CR, LF.
pub open spec fn is_xml_ws(b: u8) -> bool {
    b == 0x20u8 || b == 0x09u8 || b == 0x0Du8 || b == 0x0Au8
}

/// The first index at or after `i` that does not hold white space.
pub open spec fn ws_end(s: Seq<u8>, i: int) -> int
    decreases s.len() - i,
{
    if 0 <= i < s.len() && is_xml_ws(s[i]) {
        ws_end(s, i + 1)
    } else {
        i
    }
}

/// The first index at or after `i` that holds white space or `>`.
pub open spec fn word_end(s: Seq<u8>, i: int) -> int
    decreases s.len() - i,
{
    if 0 <= i < s.len() && !is_xml_ws(s[i]) && s[i] != 0x3Eu8 {
        word_end(s, i + 1)
    } else {
        i
    }
}

/// The first index at or after `i` that holds `q` (or the end).
pub open spec fn quote_end(s: Seq<u8>, i: int, q: u8) -> int
    decreases s.len() - i,
{
    if 0 <= i < s.len() && s[i] != q {
        quote_end(s, i + 1, q)
    } else {
        i
    }
}

pub proof fn lemma_ws_end(s: Seq<u8>, i: int)
    requires
        0 <= i <= s.len(),
    ensures
        i <= ws_end(s, i) <= s.len(),
        forall|k: int| i <= k < ws_end(s, i) ==> is_xml_ws(#[trigger] s[k]),
        ws_end(s, i) == s.len() || !is_xml_ws(s[ws_end(s, i)]),
    decreases s.len() - i,
{
    if i < s.len() && is_xml_ws(s[i]) {
        lemma_ws_end(s, i + 1);
    }
}

pub proof fn lemma_word_end(s: Seq<u8>, i: int)
    requires
        0 <= i <= s.len(),
    ensures
        i <= word_end(s, i) <= s.len(),
    decreases s.len() - i,
{
    if i < s.len() && !is_xml_ws(s[i]) && s[i] != 0x3Eu8 {
        lemma_word_end(s, i + 1);
    }
}

pub proof fn lemma_quote_end(s: Seq<u8>, i: int, q: u8)
    requires
        0 <= i <= s.len(),
    ensures
        i <= quote_end(s, i, q) <= s.len(),
    decreases s.len() - i,
{
    if i < s.len() && s[i] != q {
        lemma_quote_end(s, i + 1, q);
    }
}

pub proof fn lemma_decl_end(s: Seq<u8>, i: int)
    ensures
        decl_end(s, i) matches Some(e) ==> 0 <= i < e <= s.len(),
{
    lemma_find_byte(s, i, 0x3Eu8);
}

/// The bytes of `<!ENTITY`.
pub open spec fn entity_keyword() -> Seq<u8> {
    seq![0x3Cu8, 0x21u8, 0x45u8, 0x4Eu8, 0x54u8, 0x49u8, 0x54u8, 0x59u8]
}

/// The text of a byte range of a value, or nothing when it is not UTF-8.
pub open spec fn utf8_or_empty(b: Seq<u8>) -> Seq<char> {
    if valid_utf8(b) {
        decode_utf8(b)
    } else {
        Seq::<char>::empty()
    }
}

/// The declarations that the internal subset `s` adds to `m`, reading from
/// byte `i` on. Each `<!ENTITY name "value">` (or single-quoted) declares
/// `name`; a parameter entity (`<!ENTITY % ...`), a name that is empty or not
/// UTF-8, or a declaration without a quoted value is skipped up to the next
/// `>`, and reading stops where there is none. Anything that is not an
/// `<!ENTITY` is passed over byte by byte.
pub open spec fn subset_declarations(s: Seq<u8>, i: int, m: Map<Seq<char>, Seq<char>>) -> Map<
    Seq<char>,
    Seq<char>,
>
    decreases s.len() - i,
{
    if i < 0 || i >= s.len() {
        m
    } else if seq_starts_with(s.subrange(i, s.len() as int), entity_keyword()) {
        let j = ws_end(s, i + 8);
        proof {
            lemma_ws_end(s, i + 8);
        }
        if j < s.len() && s[j] == 0x25u8 {
            proof {
                lemma_decl_end(s, j);
            }
            match decl_end(s, j) {
                Some(e) => subset_declarations(s, e, m),
                None => m,
            }
        } else {
            let k = word_end(s, j);
            proof {
                lemma_word_end(s, j);
                lemma_decl_end(s, k);
            }
            let name = s.subrange(j, k);
            if !valid_utf8(name) || name.len() == 0 {
                match decl_end(s, k) {
                    Some(e) => subset_declarations(s, e, m),
                    None => m,
                }
            } else {
                let q = ws_end(s, k);
                proof {
                    lemma_ws_end(s, k);
                    lemma_decl_end(s, q);
                }
                if q >= s.len() || (s[q] != 0x22u8 && s[q] != 0x27u8) {
                    match decl_end(s, q) {
                        Some(e) => subset_declarations(s, e, m),
                        None => m,
                    }
                } else {
                    let vend = quote_end(s, q + 1, s[q]);
                    proof {
                        lemma_quote_end(s, q + 1, s[q]);
                    }
                    let value = utf8_or_empty(s.subrange(q + 1, vend));
                    let after = if vend < s.len() {
                        vend + 1
                    } else {
                        vend
                    };
                    proof {
                        lemma_decl_end(s, after);
                    }
                    let next = match decl_end(s, after) {
                        Some(e) => e,
                        None => after,
                    };
                    subset_declarations(s, next, m.insert(decode_utf8(name), value))
                }
            }
        }
    } else {
        subset_declarations(s, i + 1, m)
    }
}

fn skip_ws_from(bytes: &[u8], i: usize) -> (r: usize)
    requires
        i <= bytes@.len(),
    ensures
        r == ws_end(bytes@, i as int),
{
    proof {
        lemma_ws_end(bytes@, i as int);
    }
    let n = bytes.len();
    let mut j = i;
    while j < n && (bytes[j] == 0x20 || bytes[j] == 0x09 || bytes[j] == 0x0D || bytes[j] == 0x0A)
        invariant
            n == bytes@.len(),
            i <= j <= n,
            ws_end(bytes@, i as int) == ws_end(bytes@, j as int),
        decreases n - j,
    {
        j = j + 1;
    }
    j
}

/// Reads `<!ENTITY name "value">` declarations out of the internal subset of a
/// DOCTYPE and declares them in `table`, later ones replacing earlier ones.
/// Other declarations (`<!ELEMENT>`, `<!ATTLIST>`, `<!NOTATION>`) and
/// parameter entities are passed over.
pub fn parse_internal_subset(body: &str, table: &mut EntityTable)
    ensures
        final(table)@ == subset_declarations(body.spec_bytes(), 0, old(table)@),
{
    let bytes = body.as_bytes();
    let ghost s = bytes@;
    let n = bytes.len();
    let kw: [u8; 8] = [0x3C, 0x21, 0x45, 0x4E, 0x54, 0x49, 0x54, 0x59];
    let kws = kw.as_slice();
    assert(kws@ =~= entity_keyword());
    let mut i: usize = 0;
    while i < n
        invariant_except_break
            n == s.len(),
            s == bytes@,
            s == body.spec_bytes(),
            kws@ == entity_keyword(),
            i <= n,
            subset_declarations(s, 0, old(table)@) == subset_declarations(s, i as int, table@),
        ensures
            subset_declarations(s, 0, old(table)@) == table@,
        decreases n - i,
    {
        if starts_with_at(bytes, i, kws) {
            let i0 = i;
            i = skip_ws_from(bytes, i + 8);
            proof {
                lemma_ws_end(s, i0 + 8);
            }
            if i < n && bytes[i] == 0x25 {
                proof {
                    lemma_decl_end(s, i as int);
                }
                if let Some(end) = find_end_of_decl(bytes, i) {
                    i = end;
                } else {
                    assert(subset_declarations(s, i0 as int, table@) == table@);
                    break;
                }
                continue;
            }
            let name_start = i;
            while i < n && !(bytes[i] == 0x20 || bytes[i] == 0x09 || bytes[i] == 0x0D || bytes[i]
                == 0x0A || bytes[i] == 0x3E)
                invariant
                    n == s.len(),
                    s == bytes@,
                    name_start <= i <= n,
                    word_end(s, name_start as int) == word_end(s, i as int),
                decreases n - i,
            {
                i = i + 1;
            }
            proof {
                lemma_decl_end(s, i as int);
            }
            let name = match str_from_utf8(vstd::slice::slice_subrange(bytes, name_start, i)) {
                Some(t) if !t.is_empty() => {
                    proof {
                        encode_utf8_decode_utf8(t@);
                    }
                    t.to_string()
                },
                _ => {
                    if let Some(end) = find_end_of_decl(bytes, i) {
                        i = end;
                    } else {
                        assert(subset_declarations(s, i0 as int, table@) == table@);
                        break;
                    }
                    continue;
                },
            };
            let k = i;
            i = skip_ws_from(bytes, i);
            proof {
                lemma_ws_end(s, k as int);
                lemma_decl_end(s, i as int);
            }
            if i >= n || (bytes[i] != 0x22 && bytes[i] != 0x27) {
                if let Some(end) = find_end_of_decl(bytes, i) {
                    i = end;
                } else {
                    assert(subset_declarations(s, i0 as int, table@) == table@);
                    break;
                }
                continue;
            }
            let quote = bytes[i];
            i = i + 1;
            let val_start = i;
            while i < n && bytes[i] != quote
                invariant
                    n == s.len(),
                    s == bytes@,
                    val_start <= i <= n,
                    quote_end(s, val_start as int, quote) == quote_end(s, i as int, quote),
                decreases n - i,
            {
                i = i + 1;
            }
            let vend = i;
            let value = match str_from_utf8(vstd::slice::slice_subrange(bytes, val_start, i)) {
                Some(t) => {
                    proof {
                        encode_utf8_decode_utf8(t@);
                    }
                    t.to_string()
                },
                None => {
                    proof {
                        reveal_strlit("");
                    }
                    "".to_string()
                },
            };
            if i < n {
                i = i + 1;
            }
            proof {
                lemma_decl_end(s, i as int);
            }
            if let Some(end) = find_end_of_decl(bytes, i) {
                i = end;
            }
            assert(name@ == decode_utf8(s.subrange(name_start as int, k as int)));
            assert(value@ == utf8_or_empty(s.subrange(val_start as int, vend as int)));
            table.declare(name, value);
        } else {
            i = i + 1;
        }
    }
}

} // verus!
