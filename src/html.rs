use vstd::prelude::*;
use vstd::string::StringExecFns;
use vstd::string::StrSliceExecFns;

verus! {

/// The page that a Handlebars template yields when each `{{key}}` stands for
/// the string value beside it (HTML-escaped), or `None` if it cannot render.
pub uninterp spec fn rendered(
    template: Seq<char>,
    keys: Seq<Seq<char>>,
    values: Seq<Seq<char>>,
) -> Option<Seq<char>>;

pub open spec fn texts(v: Seq<String>) -> Seq<Seq<char>> {
    v.map_values(|s: String| s@)
}

/// Relies on handlebars' `Handlebars::render_template`, with the pairs of
/// `keys` and `values` as a JSON object of strings: the rendered page, or
/// `None` when the template does not parse or render.
#[verifier::external_body]
fn render(template: &str, keys: &Vec<String>, values: &Vec<String>) -> (r: Option<String>)
    ensures
        match r {
            Some(s) => rendered(template@, texts(keys@), texts(values@)) == Some(s@),
            None => rendered(template@, texts(keys@), texts(values@)) is None,
        },
{
    let data: serde_json::Map<String, serde_json::Value> = keys.iter().cloned().zip(
        values.iter().cloned().map(serde_json::Value::String),
    ).collect();
    handlebars::Handlebars::new().render_template(template, &data).ok()
}

/// A light that is on or off.
pub struct State {
    pub on: bool,
}

pub open spec fn state_name(on: bool) -> Seq<char> {
    if on {
        "on"@
    } else {
        "off"@
    }
}

pub open spec fn state_class(on: bool) -> Seq<char> {
    if on {
        " on"@
    } else {
        ""@
    }
}

/// The state that a path segment names.
pub open spec fn state_of(s: Seq<char>) -> Option<bool> {
    if s == "on"@ {
        Some(true)
    } else if s == "off"@ {
        Some(false)
    } else {
        None
    }
}

impl State {
    /// `"on"` or `"off"`.
    pub fn to_string(&self) -> (r: String)
        ensures
            r@ == state_name(self.on),
    {
        if self.on {
            String::from_str("on")
        } else {
            String::from_str("off")
        }
    }

    pub fn invert(&self) -> (r: State)
        ensures
            r.on == !self.on,
    {
        State { on: !self.on }
    }

    /// The class suffix: `" on"` when lit, nothing otherwise.
    pub fn format(&self) -> (r: String)
        ensures
            r@ == state_class(self.on),
    {
        if self.on {
            String::from_str(" on")
        } else {
            String::from_str("")
        }
    }
}

pub fn parse_state(state: String) -> (r: Option<State>)
    ensures
        match r {
            Some(s) => state_of(state@) == Some(s.on),
            None => state_of(state@) is None,
        },
{
    proof {
        reveal_strlit("on");
        reveal_strlit("off");
    }
    if state == String::from_str("on") {
        Some(State { on: true })
    } else if state == String::from_str("off") {
        Some(State { on: false })
    } else {
        None
    }
}

/// The colours a present cycles through.
#[derive(Debug, Clone, Copy, PartialEq, Eq, Structural)]
pub enum Color {
    Red,
    Blue,
    Purple,
}

pub open spec fn color_name(c: Color) -> Seq<char> {
    match c {
        Color::Red => "red"@,
        Color::Blue => "blue"@,
        Color::Purple => "purple"@,
    }
}

pub open spec fn color_of(s: Seq<char>) -> Option<Color> {
    if s == "red"@ {
        Some(Color::Red)
    } else if s == "blue"@ {
        Some(Color::Blue)
    } else if s == "purple"@ {
        Some(Color::Purple)
    } else {
        None
    }
}

pub open spec fn next_color(c: Color) -> Color {
    match c {
        Color::Red => Color::Blue,
        Color::Blue => Color::Purple,
        Color::Purple => Color::Red,
    }
}

impl Color {
    pub fn to_string(&self) -> (r: String)
        ensures
            r@ == color_name(*self),
    {
        match self {
            Color::Red => String::from_str("red"),
            Color::Blue => String::from_str("blue"),
            Color::Purple => String::from_str("purple"),
        }
    }

    /// Red, then blue, then purple, then red again.
    pub fn next(&self) -> (r: Color)
        ensures
            r == next_color(*self),
    {
        match self {
            Color::Red => Color::Blue,
            Color::Blue => Color::Purple,
            Color::Purple => Color::Red,
        }
    }
}

pub fn parse_color(color: &str) -> (r: Option<Color>)
    ensures
        r == color_of(color@),
{
    proof {
        reveal_strlit("red");
        reveal_strlit("blue");
        reveal_strlit("purple");
    }
    let c = String::from_str(color);
    if c == String::from_str("red") {
        Some(Color::Red)
    } else if c == String::from_str("blue") {
        Some(Color::Blue)
    } else if c == String::from_str("purple") {
        Some(Color::Purple)
    } else {
        None
    }
}

/// The ornament snippet: it shows the light in its state and asks, after two
/// seconds, for the same ornament in the other state.
pub const ORNAMENT_TEMPLATE: &'static str = "<div class=\"ornament{{state}}\" id=\"ornament{{id}}\" hx-trigger=\"load delay:2s once\" hx-get=\"/23/ornament/{{next}}/{{id}}\" hx-swap=\"outerHTML\"></div>";

/// The present snippet: a box of the colour that asks, when clicked, for the
/// next colour.
pub const PRESENT_TEMPLATE: &'static str = "
    <div class=\"present {{color}}\" hx-get=\"/23/present/{{next}}\" hx-swap=\"outerHTML\">
        <div class=\"ribbon\"></div>
        <div class=\"ribbon\"></div>
        <div class=\"ribbon\"></div>
        <div class=\"ribbon\"></div>
    </div>
    ";

pub open spec fn page_result(r: Option<Seq<char>>) -> Result<Seq<char>, ()> {
    match r {
        Some(s) => Ok(s),
        None => Err(()),
    }
}

pub open spec fn text_result(r: Result<String, ()>) -> Result<Seq<char>, ()> {
    match r {
        Ok(s) => Ok(s@),
        Err(()) => Err(()),
    }
}

/// The ornament page for a state named `state` and an element id; `Err` for
/// an unknown state or a page that does not render.
pub fn ornament(state: String, id: String) -> (r: Result<String, ()>)
    ensures
        text_result(r) == match state_of(state@) {
            None => Err(()),
            Some(on) => page_result(
                rendered(
                    ORNAMENT_TEMPLATE@,
                    seq!["state"@, "id"@, "next"@],
                    seq![state_class(on), id@, state_name(!on)],
                ),
            ),
        },
{
    let st = match parse_state(state) {
        Some(s) => s,
        None => {
            return Err(());
        },
    };
    let keys = vec![String::from_str("state"), String::from_str("id"), String::from_str("next")];
    let values = vec![st.format(), id, st.invert().to_string()];
    assert(texts(keys@) =~= seq!["state"@, "id"@, "next"@]);
    assert(texts(values@) =~= seq![state_class(st.on), id@, state_name(!st.on)]);
    match render(ORNAMENT_TEMPLATE, &keys, &values) {
        Some(page) => Ok(page),
        None => Err(()),
    }
}

/// The present page for a colour named `color`; `Err` for an unknown colour
/// or a page that does not render.
pub fn present(color: String) -> (r: Result<String, ()>)
    ensures
        text_result(r) == match color_of(color@) {
            None => Err(()),
            Some(c) => page_result(
                rendered(
                    PRESENT_TEMPLATE@,
                    seq!["color"@, "next"@],
                    seq![color_name(c), color_name(next_color(c))],
                ),
            ),
        },
{
    let c = match parse_color(color.as_str()) {
        Some(c) => c,
        None => {
            return Err(());
        },
    };
    let keys = vec![String::from_str("color"), String::from_str("next")];
    let values = vec![c.to_string(), c.next().to_string()];
    assert(texts(keys@) =~= seq!["color"@, "next"@]);
    assert(texts(values@) =~= seq![color_name(c), color_name(next_color(c))]);
    match render(PRESENT_TEMPLATE, &keys, &values) {
        Some(page) => Ok(page),
        None => Err(()),
    }
}

/// The snippet drawn for one lockfile checksum: a box of the colour, placed
/// at the offsets.
pub const CHECKSUM_TEMPLATE: &'static str = "<div style=\"background-color:#{{color}};top:{{top}}px;left:{{left}}px;\"></div>";

pub const DIGITS: &'static str = "0123456789";

pub open spec fn digit_char(d: nat) -> char {
    DIGITS@[d as int]
}

/// The decimal numeral of `n`.
pub open spec fn decimal(n: nat) -> Seq<char>
    decreases n,
{
    if n < 10 {
        seq![digit_char(n)]
    } else {
        decimal(n / 10).push(digit_char(n % 10))
    }
}

/// `s` without the double quotes at its front.
pub open spec fn strip_front(s: Seq<char>) -> Seq<char>
    decreases s.len(),
{
    if s.len() > 0 && s[0] == '"' {
        strip_front(s.drop_first())
    } else {
        s
    }
}

/// `s` without the double quotes at its back.
pub open spec fn strip_back(s: Seq<char>) -> Seq<char>
    decreases s.len(),
{
    if s.len() > 0 && s.last() == '"' {
        strip_back(s.drop_last())
    } else {
        s
    }
}

pub open spec fn is_hex(c: char) -> bool {
    ('0' <= c && c <= '9') || ('a' <= c && c <= 'f') || ('A' <= c && c <= 'F')
}

pub open spec fn hex_value(c: char) -> nat {
    if '0' <= c && c <= '9' {
        ((c as u32) - ('0' as u32)) as nat
    } else if 'a' <= c && c <= 'f' {
        ((c as u32) - ('a' as u32) + 10) as nat
    } else {
        ((c as u32) - ('A' as u32) + 10) as nat
    }
}

/// What `u32::from_str_radix` reads from two characters in base 16: two hex
/// digits, or a `+` and one hex digit.
pub open spec fn pair_value(a: char, b: char) -> Option<nat> {
    if a == '+' {
        if is_hex(b) {
            Some(hex_value(b))
        } else {
            None
        }
    } else if is_hex(a) && is_hex(b) {
        Some(16 * hex_value(a) + hex_value(b))
    } else {
        None
    }
}

/// The colour and the two offsets a checksum spells, once its surrounding
/// double quotes are gone: six hex digits, then two pairs.
pub open spec fn checksum_parts(s: Seq<char>) -> Option<(Seq<char>, nat, nat)> {
    let t = strip_back(strip_front(s));
    if t.len() >= 10 && (forall|i: int| 0 <= i < 6 ==> is_hex(#[trigger] t[i])) && pair_value(
        t[6],
        t[7],
    ) is Some && pair_value(t[8], t[9]) is Some {
        Some((t.take(6), pair_value(t[6], t[7])->Some_0, pair_value(t[8], t[9])->Some_0))
    } else {
        None
    }
}

fn hex_digit(c: char) -> (r: Option<u32>)
    ensures
        match r {
            Some(v) => is_hex(c) && v == hex_value(c),
            None => !is_hex(c),
        },
{
    if '0' <= c && c <= '9' {
        Some((c as u32) - ('0' as u32))
    } else if 'a' <= c && c <= 'f' {
        Some((c as u32) - ('a' as u32) + 10)
    } else if 'A' <= c && c <= 'F' {
        Some((c as u32) - ('A' as u32) + 10)
    } else {
        None
    }
}

fn read_pair(a: char, b: char) -> (r: Option<u32>)
    ensures
        match r {
            Some(v) => pair_value(a, b) == Some(v as nat) && v < 256,
            None => pair_value(a, b) is None,
        },
{
    let lo = match hex_digit(b) {
        Some(v) => v,
        None => {
            return None;
        },
    };
    if a == '+' {
        return Some(lo);
    }
    match hex_digit(a) {
        Some(hi) => Some(16 * hi + lo),
        None => None,
    }
}

fn decimal_text(n: u32) -> (r: String)
    requires
        n < 256,
    ensures
        r@ == decimal(n as nat),
{
    proof {
        reveal_strlit("0123456789");
    }
    let mut out = String::new();
    if n >= 100 {
        out.append(DIGITS.substring_char((n / 100) as usize, (n / 100 + 1) as usize));
    }
    if n >= 10 {
        out.append(DIGITS.substring_char((n / 10 % 10) as usize, (n / 10 % 10 + 1) as usize));
    }
    out.append(DIGITS.substring_char((n % 10) as usize, (n % 10 + 1) as usize));
    proof {
        let m = n as nat;
        if m >= 100 {
            assert(decimal(m / 100) == seq![digit_char(m / 100)]);
            assert(decimal(m / 10) == decimal(m / 100).push(digit_char((m / 10) % 10)));
        } else if m >= 10 {
            assert(decimal(m / 10) == seq![digit_char(m / 10)]);
        }
        assert(out@ =~= decimal(m));
    }
    out
}

/// Draws a lockfile checksum as a coloured box: `Err` when it does not spell
/// a colour and two offsets, or the snippet does not render.
pub fn parse_checksum(checksum: &str) -> (r: Result<String, ()>)
    ensures
        text_result(r) == match checksum_parts(checksum@) {
            None => Err(()),
            Some(parts) => page_result(
                rendered(
                    CHECKSUM_TEMPLATE@,
                    seq!["color"@, "top"@, "left"@],
                    seq![parts.0, decimal(parts.1), decimal(parts.2)],
                ),
            ),
        },
{
    let n = checksum.unicode_len();
    let mut lo: usize = 0;
    assert(checksum@.subrange(0, n as int) =~= checksum@);
    while lo < n && checksum.get_char(lo) == '"'
        invariant
            lo <= n,
            n == checksum@.len(),
            strip_front(checksum@) == strip_front(checksum@.subrange(lo as int, n as int)),
        decreases n - lo,
    {
        assert(checksum@.subrange(lo as int, n as int).drop_first() =~= checksum@.subrange(
            lo + 1,
            n as int,
        ));
        lo = lo + 1;
    }
    assert(strip_front(checksum@.subrange(lo as int, n as int)) == checksum@.subrange(
        lo as int,
        n as int,
    ));
    let mut hi: usize = n;
    while hi > lo && checksum.get_char(hi - 1) == '"'
        invariant
            lo <= hi <= n,
            n == checksum@.len(),
            strip_back(strip_front(checksum@)) == strip_back(checksum@.subrange(lo as int, hi as int)),
        decreases hi - lo,
    {
        assert(checksum@.subrange(lo as int, hi as int).drop_last() =~= checksum@.subrange(
            lo as int,
            hi - 1,
        ));
        hi = hi - 1;
    }
    assert(strip_back(checksum@.subrange(lo as int, hi as int)) == checksum@.subrange(
        lo as int,
        hi as int,
    ));
    let t = checksum.substring_char(lo, hi);
    assert(strip_back(strip_front(checksum@)) == t@);
    if hi - lo < 10 {
        return Err(());
    }
    let mut i: usize = 0;
    while i < 6
        invariant
            i <= 6,
            t@.len() >= 10,
            strip_back(strip_front(checksum@)) == t@,
            forall|j: int| 0 <= j < i ==> is_hex(#[trigger] t@[j]),
        decreases 6 - i,
    {
        if hex_digit(t.get_char(i)).is_none() {
            assert(!is_hex(t@[i as int]));
            return Err(());
        }
        i = i + 1;
    }
    let top = match read_pair(t.get_char(6), t.get_char(7)) {
        Some(v) => v,
        None => {
            return Err(());
        },
    };
    let left = match read_pair(t.get_char(8), t.get_char(9)) {
        Some(v) => v,
        None => {
            return Err(());
        },
    };
    let color = String::from_str(t.substring_char(0, 6));
    let keys = vec![String::from_str("color"), String::from_str("top"), String::from_str("left")];
    let values = vec![color, decimal_text(top), decimal_text(left)];
    assert(texts(keys@) =~= seq!["color"@, "top"@, "left"@]);
    assert(t@.subrange(0, 6) =~= t@.take(6));
    assert(texts(values@) =~= seq![t@.take(6), decimal(top as nat), decimal(left as nat)]);
    match render(CHECKSUM_TEMPLATE, &keys, &values) {
        Some(page) => Ok(page),
        None => Err(()),
    }
}

} // verus!
