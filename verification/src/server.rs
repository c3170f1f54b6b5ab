//! The server's settings: the bindings text the user edits, what it maps,
//! and the port.
use vstd::prelude::*;
use vstd::string::*;
use crate::keycodes::KeycodeTable;
use crate::text::{chars_of, string_of, trim_bounds};

verus! {

/// The bindings text after the user adds the binding `client => server`:
/// the new binding goes on a line of its own.
pub open spec fn appended_text(text: Seq<char>, client: Seq<char>, server: Seq<char>) -> Seq<char> {
    (if text.len() > 0 { text + "\n"@ } else { text }) + client + " => "@ + server
}

/// Adds the binding `client => server` to the bindings text, on a line of its own.
pub fn append_binding(text: &str, client: &str, server: &str) -> (r: String)
    ensures
        r@ == appended_text(text@, client@, server@),
{
    let mut r = String::from_str(text);
    if !text.is_empty() {
        r.append("\n");
    }
    r.append(client);
    r.append(" => ");
    r.append(server);
    r
}

/// `s` cut at each line feed: the lines of `s`. Every line but the last ended
/// with a line feed, which no line keeps.
pub open spec fn split_lines(s: Seq<char>) -> Seq<Seq<char>>
    decreases s.len(),
{
    if s.len() == 0 {
        seq![seq![]]
    } else {
        let p = split_lines(s.drop_last());
        if s.last() == '\n' {
            p.push(seq![])
        } else {
            p.update(p.len() - 1, p.last().push(s.last()))
        }
    }
}

proof fn lemma_split_lines_nonempty(s: Seq<char>)
    ensures
        split_lines(s).len() >= 1,
    decreases s.len(),
{
    if s.len() > 0 {
        lemma_split_lines_nonempty(s.drop_last());
    }
}

/// `bounds[k]` delimits `lines[k]` within `t`, for each `k`.
pub open spec fn bounds_match(t: Seq<char>, bounds: Seq<(usize, usize)>, lines: Seq<Seq<char>>) -> bool {
    &&& bounds.len() == lines.len()
    &&& forall|k: int|
        #![trigger bounds[k]]
        #![trigger lines[k]]
        0 <= k < bounds.len() ==> {
            &&& bounds[k].0 <= bounds[k].1
            &&& bounds[k].1 <= t.len()
            &&& t.subrange(bounds[k].0 as int, bounds[k].1 as int) == lines[k]
        }
}

proof fn lemma_bounds_push(
    t: Seq<char>,
    bounds: Seq<(usize, usize)>,
    lines: Seq<Seq<char>>,
    b: (usize, usize),
    line: Seq<char>,
)
    requires
        bounds_match(t, bounds, lines),
        b.0 <= b.1 <= t.len(),
        t.subrange(b.0 as int, b.1 as int) == line,
    ensures
        bounds_match(t, bounds.push(b), lines.push(line)),
{
    let nb = bounds.push(b);
    let nl = lines.push(line);
    assert forall|k: int| 0 <= k < nb.len() implies nb[k].0 <= nb[k].1 && nb[k].1 <= t.len()
        && t.subrange(nb[k].0 as int, nb[k].1 as int) == nl[k] by {
        if k < bounds.len() {
            assert(nb[k] == bounds[k]);
            assert(nl[k] == lines[k]);
        }
    }
}

/// The bounds within `t` of each of its lines.
fn line_bounds(t: &Vec<char>) -> (r: Vec<(usize, usize)>)
    ensures
        bounds_match(t@, r@, split_lines(t@)),
{
    let mut r: Vec<(usize, usize)> = Vec::new();
    let n = t.len();
    let mut start: usize = 0;
    let mut i: usize = 0;
    while i < n
        invariant
            n == t@.len(),
            start <= i <= n,
            split_lines(t@.take(i as int)).last() == t@.subrange(start as int, i as int),
            bounds_match(t@, r@, split_lines(t@.take(i as int)).drop_last()),
        decreases n - i,
    {
        let ghost before = split_lines(t@.take(i as int));
        let ghost old_r = r@;
        assert(t@.take(i + 1).drop_last() == t@.take(i as int));
        assert(t@.take(i + 1).last() == t@[i as int]);
        proof {
            lemma_split_lines_nonempty(t@.take(i as int));
        }
        if t[i] == '\n' {
            assert(split_lines(t@.take(i + 1)) == before.push(seq![]));
            assert(split_lines(t@.take(i + 1)).drop_last() == before);
            proof {
                lemma_bounds_push(t@, r@, before.drop_last(), (start, i), before.last());
            }
            r.push((start, i));
            assert(before == before.drop_last().push(before.last()));
            start = i + 1;
        } else {
            assert(t@.subrange(start as int, i + 1) == t@.subrange(start as int, i as int).push(
                t@[i as int],
            ));
            assert(split_lines(t@.take(i + 1)).drop_last() == before.drop_last());
        }
        i = i + 1;
    }
    assert(t@.take(n as int) == t@);
    proof {
        lemma_split_lines_nonempty(t@);
    }
    let ghost lines = split_lines(t@);
    proof {
        lemma_bounds_push(t@, r@, lines.drop_last(), (start, n), lines.last());
    }
    r.push((start, n));
    assert(lines == lines.drop_last().push(lines.last()));
    r
}

/// Why the server cannot start with what the user entered.
#[derive(Debug, PartialEq, Eq)]
pub enum StartError {
    /// A line of the bindings text does not hold exactly one `=>`.
    InvalidSyntax,
    /// A binding names a key that is not in the key table.
    InvalidBinding(String),
    /// The port is not a decimal number from 0 to 65535.
    InvalidPort,
}

/// `StartError`, with its key name taken by its characters.
pub enum StartErrorView {
    InvalidSyntax,
    InvalidBinding(Seq<char>),
    InvalidPort,
}

impl View for StartError {
    type V = StartErrorView;

    open spec fn view(&self) -> StartErrorView {
        match self {
            StartError::InvalidSyntax => StartErrorView::InvalidSyntax,
            StartError::InvalidBinding(name) => StartErrorView::InvalidBinding(name@),
            StartError::InvalidPort => StartErrorView::InvalidPort,
        }
    }
}

/// The text shown to the user for an error.
pub open spec fn error_text(e: StartErrorView) -> Seq<char> {
    match e {
        StartErrorView::InvalidSyntax => "Invalid bindings syntax"@,
        StartErrorView::InvalidBinding(name) => "Invalid binding "@ + name,
        StartErrorView::InvalidPort => "Invalid port"@,
    }
}

impl StartError {
    /// The text shown to the user for this error.
    pub fn message(&self) -> (r: String)
        ensures
            r@ == error_text(self@),
    {
        match self {
            StartError::InvalidSyntax => String::from_str("Invalid bindings syntax"),
            StartError::InvalidBinding(name) => {
                let mut r = String::from_str("Invalid binding ");
                r.append(name.as_str());
                r
            },
            StartError::InvalidPort => String::from_str("Invalid port"),
        }
    }
}

/// The map that a list of pairs gives when each pair is inserted in turn:
/// a later pair for the same client key replaces an earlier one.
pub open spec fn pairs_map(pairs: Seq<(String, String)>) -> Map<Seq<char>, Seq<char>>
    decreases pairs.len(),
{
    if pairs.len() == 0 {
        Map::empty()
    } else {
        pairs_map(pairs.drop_last()).insert(pairs.last().0@, pairs.last().1@)
    }
}

/// The bindings of the server: each client key name maps to a server key name.
pub struct Bindings {
    pairs: Vec<(String, String)>,
}

impl View for Bindings {
    type V = Map<Seq<char>, Seq<char>>;

    closed spec fn view(&self) -> Map<Seq<char>, Seq<char>> {
        pairs_map(self.pairs@)
    }
}

impl Bindings {
    /// No bindings.
    pub fn new() -> (r: Self)
        ensures
            r@ == Map::<Seq<char>, Seq<char>>::empty(),
    {
        Bindings { pairs: Vec::new() }
    }

    /// Binds `client` to `server`, in place of what `client` was bound to.
    pub fn insert(&mut self, client: String, server: String)
        ensures
            final(self)@ == old(self)@.insert(client@, server@),
    {
        let ghost old_pairs = self.pairs@;
        self.pairs.push((client, server));
        assert(self.pairs@.drop_last() == old_pairs);
    }

    /// The pairs inserted so far, in order; inserting them in turn into an
    /// empty map gives the bindings.
    pub fn pairs(&self) -> (r: &Vec<(String, String)>)
        ensures
            pairs_map(r@) == self@,
    {
        &self.pairs
    }

    /// The server key that `client` is bound to.
    pub fn get(&self, client: &str) -> (r: Option<&String>)
        ensures
            r matches Some(v) ==> self@.contains_key(client@) && self@[client@] == v@,
            r is None <==> !self@.contains_key(client@),
    {
        let key = String::from_str(client);
        let ghost ps = self.pairs@;
        let mut i: usize = self.pairs.len();
        while i > 0
            invariant
                ps == self.pairs@,
                i <= ps.len(),
                key@ == client@,
                forall|j: int| i <= j < ps.len() ==> (#[trigger] ps[j]).0@ != client@,
            decreases i,
        {
            if self.pairs[i - 1].0 == key {
                proof {
                    lemma_pairs_map_tail(ps, i as int, client@);
                    assert(ps.take(i as int).drop_last() == ps.take(i - 1));
                }
                return Some(&self.pairs[i - 1].1);
            }
            i = i - 1;
        }
        proof {
            lemma_pairs_map_tail(ps, 0, client@);
        }
        None
    }
}

/// Pairs after position `i` that do not name `k` leave what the map says of `k`.
proof fn lemma_pairs_map_tail(ps: Seq<(String, String)>, i: int, k: Seq<char>)
    requires
        0 <= i <= ps.len(),
        forall|j: int| i <= j < ps.len() ==> (#[trigger] ps[j]).0@ != k,
    ensures
        pairs_map(ps).contains_key(k) == pairs_map(ps.take(i)).contains_key(k),
        pairs_map(ps)[k] == pairs_map(ps.take(i))[k],
    decreases ps.len(),
{
    if i == ps.len() {
        assert(ps.take(i) == ps);
    } else {
        assert(ps[ps.len() - 1].0@ != k);
        lemma_pairs_map_tail(ps.drop_last(), i, k);
        assert(ps.drop_last().take(i) == ps.take(i));
    }
}

/// A `=>` starts at position `i` of `l`.
pub open spec fn is_arrow_at(l: Seq<char>, i: int) -> bool {
    0 <= i && i + 1 < l.len() && l[i] == '=' && l[i + 1] == '>'
}

/// The only `=>` of `l` starts at position `i`; then `l.split("=>")` gives
/// exactly two parts, `l[..i]` and `l[i + 2..]` (two `=>` cannot overlap).
pub open spec fn is_single_arrow_at(l: Seq<char>, i: int) -> bool {
    &&& is_arrow_at(l, i)
    &&& forall|j: int| #[trigger] is_arrow_at(l, j) ==> j == i
}

/// `l` holds exactly one `=>`.
pub open spec fn has_single_arrow(l: Seq<char>) -> bool {
    exists|i: int| is_single_arrow_at(l, i)
}

/// Where the only `=>` of `l` starts.
pub open spec fn arrow_index(l: Seq<char>) -> int {
    choose|i: int| is_single_arrow_at(l, i)
}

/// The client key name of a binding line: what comes before `=>`, trimmed.
pub open spec fn line_client(l: Seq<char>) -> Seq<char> {
    crate::text::trim(l.take(arrow_index(l)))
}

/// The server key name of a binding line: what comes after `=>`, trimmed.
pub open spec fn line_server(l: Seq<char>) -> Seq<char> {
    crate::text::trim(l.skip(arrow_index(l) + 2))
}

/// What one line of the bindings text does to the bindings read so far:
/// a blank line does nothing, and `client => server` binds `client` to
/// `server` when both are names of the key table.
pub open spec fn line_step(
    m: Map<Seq<char>, Seq<char>>,
    l: Seq<char>,
    table: &KeycodeTable,
) -> Result<Map<Seq<char>, Seq<char>>, StartErrorView> {
    if crate::text::trim(l).len() == 0 {
        Ok(m)
    } else if !has_single_arrow(l) {
        Err(StartErrorView::InvalidSyntax)
    } else if !table.has_name(line_client(l)) {
        Err(StartErrorView::InvalidBinding(line_client(l)))
    } else if !table.has_name(line_server(l)) {
        Err(StartErrorView::InvalidBinding(line_server(l)))
    } else {
        Ok(m.insert(line_client(l), line_server(l)))
    }
}

/// The bindings that lines give, read in order: the first bad line decides the error.
pub open spec fn bindings_of_lines(ls: Seq<Seq<char>>, table: &KeycodeTable) -> Result<
    Map<Seq<char>, Seq<char>>,
    StartErrorView,
>
    decreases ls.len(),
{
    if ls.len() == 0 {
        Ok(Map::empty())
    } else {
        match bindings_of_lines(ls.drop_last(), table) {
            Ok(m) => line_step(m, ls.last(), table),
            Err(e) => Err(e),
        }
    }
}

/// The bindings that a bindings text gives.
///
/// The lines are those of `str::lines`, but for a carriage return before a
/// line feed, which stays on its line; it is white space, and every part of a
/// line is trimmed before it is used, so the result is the same.
pub open spec fn bindings_of_text(text: Seq<char>, table: &KeycodeTable) -> Result<
    Map<Seq<char>, Seq<char>>,
    StartErrorView,
> {
    bindings_of_lines(split_lines(text), table)
}

/// Once a line is bad, the lines after it change nothing.
proof fn lemma_error_stays(ls: Seq<Seq<char>>, k: int, table: &KeycodeTable)
    requires
        0 <= k <= ls.len(),
        bindings_of_lines(ls.take(k), table) is Err,
    ensures
        bindings_of_lines(ls, table) == bindings_of_lines(ls.take(k), table),
    decreases ls.len(),
{
    if k == ls.len() {
        assert(ls.take(k) == ls);
    } else {
        assert(ls.drop_last().take(k) == ls.take(k));
        lemma_error_stays(ls.drop_last(), k, table);
    }
}

/// Reads one line, `t[lo..hi]`, into `acc`.
fn read_line(t: &Vec<char>, lo: usize, hi: usize, table: &KeycodeTable, acc: &mut Bindings) -> (r:
    Result<(), StartError>)
    requires
        lo <= hi <= t@.len(),
    ensures
        r is Ok ==> line_step(old(acc)@, t@.subrange(lo as int, hi as int), table) == Ok::<
            Map<Seq<char>, Seq<char>>,
            StartErrorView,
        >(final(acc)@),
        r matches Err(e) ==> line_step(old(acc)@, t@.subrange(lo as int, hi as int), table)
            == Err::<Map<Seq<char>, Seq<char>>, StartErrorView>(e@),
{
    let ghost l = t@.subrange(lo as int, hi as int);
    let (a, b) = trim_bounds(t, lo, hi);
    if a == b {
        return Ok(());
    }
    let mut first: Option<usize> = None;
    let mut twice = false;
    let mut j: usize = lo;
    while j < hi && j + 1 < hi && !twice
        invariant
            lo <= hi <= t@.len(),
            l == t@.subrange(lo as int, hi as int),
            lo <= j,
            j <= hi,
            first is None ==> forall|q: int| 0 <= q < j - lo ==> !#[trigger] is_arrow_at(l, q),
            first matches Some(p) ==> {
                &&& lo <= p < j
                &&& is_arrow_at(l, p - lo)
                &&& forall|q: int| 0 <= q < p - lo ==> !#[trigger] is_arrow_at(l, q)
                &&& !twice ==> forall|q: int| p - lo < q < j - lo ==> !#[trigger] is_arrow_at(l, q)
            },
            twice ==> first is Some && exists|q: int| q != first->0 - lo && is_arrow_at(l, q),
        decreases hi - j,
    {
        if t[j] == '=' && t[j + 1] == '>' {
            assert(is_arrow_at(l, j - lo));
            match first {
                None => {
                    first = Some(j);
                },
                Some(_) => {
                    twice = true;
                },
            }
        }
        j = j + 1;
    }
    let p = match first {
        Some(p) => p,
        None => {
            assert forall|i: int| !is_single_arrow_at(l, i) by {
                if is_arrow_at(l, i) {
                    assert(i < j - lo);
                }
            }
            return Err(StartError::InvalidSyntax);
        },
    };
    if twice {
        assert forall|i: int| !is_single_arrow_at(l, i) by {
            if is_single_arrow_at(l, i) {
                let q = choose|q: int| q != p - lo && is_arrow_at(l, q);
                assert(is_arrow_at(l, p - lo));
                assert(q == i);
                assert(p - lo == i);
            }
        }
        return Err(StartError::InvalidSyntax);
    }
    assert(is_single_arrow_at(l, p - lo)) by {
        assert forall|q: int| #[trigger] is_arrow_at(l, q) implies q == p - lo by {
            assert(q < j - lo);
        }
    }
    assert(arrow_index(l) == p - lo);
    assert(l.take(p - lo) == t@.subrange(lo as int, p as int));
    assert(l.skip(p - lo + 2) == t@.subrange(p + 2, hi as int));
    let (ca, cb) = trim_bounds(t, lo, p);
    let (sa, sb) = trim_bounds(t, p + 2, hi);
    let client = string_of(t, ca, cb);
    let server = string_of(t, sa, sb);
    if !table.contains_name(&client) {
        return Err(StartError::InvalidBinding(client));
    }
    if !table.contains_name(&server) {
        return Err(StartError::InvalidBinding(server));
    }
    acc.insert(client, server);
    Ok(())
}

/// Reads the bindings text that the user entered: one binding
/// `client => server` per line, blank lines ignored, both names from `table`;
/// a later binding of the same client key replaces an earlier one.
pub fn parse_bindings(text: &str, table: &KeycodeTable) -> (r: Result<Bindings, StartError>)
    ensures
        r matches Ok(b) ==> bindings_of_text(text@, table) == Ok::<
            Map<Seq<char>, Seq<char>>,
            StartErrorView,
        >(b@),
        r matches Err(e) ==> bindings_of_text(text@, table) == Err::<
            Map<Seq<char>, Seq<char>>,
            StartErrorView,
        >(e@),
{
    let t = chars_of(text);
    let bounds = line_bounds(&t);
    let ghost lines = split_lines(t@);
    let mut acc = Bindings::new();
    let n = bounds.len();
    let mut k: usize = 0;
    assert(lines.take(0) == Seq::<Seq<char>>::empty());
    while k < n
        invariant
            n == bounds@.len(),
            t@ == text@,
            lines == split_lines(t@),
            bounds_match(t@, bounds@, lines),
            k <= n,
            bindings_of_lines(lines.take(k as int), table) == Ok::<
                Map<Seq<char>, Seq<char>>,
                StartErrorView,
            >(acc@),
        decreases n - k,
    {
        let (lo, hi) = bounds[k];
        assert(t@.subrange(lo as int, hi as int) == lines[k as int]);
        assert(lines.take(k + 1).drop_last() == lines.take(k as int));
        assert(lines.take(k + 1).last() == lines[k as int]);
        match read_line(&t, lo, hi, table, &mut acc) {
            Ok(()) => {},
            Err(e) => {
                proof {
                    lemma_error_stays(lines, k + 1, table);
                }
                return Err(e);
            },
        }
        k = k + 1;
    }
    assert(lines.take(n as int) == lines);
    Ok(acc)
}

/// Whether `c` is an ASCII decimal digit.
pub open spec fn is_digit(c: char) -> bool {
    48 <= c as u32 <= 57
}

/// The number that a decimal digit stands for.
pub open spec fn digit_value(c: char) -> int {
    c as u32 - 48
}

/// The number that a string of decimal digits stands for.
pub open spec fn digits_value(s: Seq<char>) -> int
    decreases s.len(),
{
    if s.len() == 0 {
        0
    } else {
        digits_value(s.drop_last()) * 10 + digit_value(s.last())
    }
}

/// The digits of a port text: all of it, or what follows a leading `+`.
pub open spec fn port_digits(s: Seq<char>) -> Seq<char> {
    if s.len() > 0 && s[0] == '+' {
        s.skip(1)
    } else {
        s
    }
}

/// The port that a text gives, as `u16::from_str_radix(text, 10)` reads it:
/// an optional `+`, then at least one decimal digit, and a value that fits in
/// a `u16`.
pub open spec fn port_value(s: Seq<char>) -> Option<u16> {
    let d = port_digits(s);
    if d.len() > 0 && (forall|i: int| 0 <= i < d.len() ==> is_digit(#[trigger] d[i]))
        && digits_value(d) <= u16::MAX {
        Some(digits_value(d) as u16)
    } else {
        None
    }
}

/// More digits never make a smaller number.
proof fn lemma_digits_grow(s: Seq<char>, k: int)
    requires
        0 <= k <= s.len(),
        forall|i: int| 0 <= i < s.len() ==> is_digit(#[trigger] s[i]),
    ensures
        digits_value(s.take(k)) <= digits_value(s),
        digits_value(s.take(k)) >= 0,
    decreases s.len(),
{
    if k == s.len() {
        assert(s.take(k) == s);
        if s.len() > 0 {
            lemma_digits_grow(s.drop_last(), k - 1);
            assert(s.drop_last().take(k - 1) == s.drop_last());
        }
    } else {
        lemma_digits_grow(s.drop_last(), k);
        assert(s.drop_last().take(k) == s.take(k));
        lemma_digits_grow(s.drop_last(), s.len() - 1);
        assert(s.drop_last().take(s.len() - 1) == s.drop_last());
        assert(is_digit(s[s.len() - 1]));
    }
}

/// Reads the port that the user entered.
pub fn parse_port(text: &str) -> (r: Option<u16>)
    ensures
        r == port_value(text@),
{
    let t = chars_of(text);
    let n = t.len();
    let mut i: usize = 0;
    if n > 0 && t[0] == '+' {
        i = 1;
    }
    let ghost d = port_digits(t@);
    assert(d == t@.skip(i as int));
    if i == n {
        return None;
    }
    let mut value: u32 = 0;
    while i < n
        invariant
            t@ == text@,
            n == t@.len(),
            d == port_digits(t@),
            d.len() > 0,
            n - d.len() <= i <= n,
            forall|k: int| 0 <= k < i - (n - d.len()) ==> is_digit(#[trigger] d[k]),
            value == digits_value(d.take(i - (n - d.len()))),
            value <= u16::MAX,
        decreases n - i,
    {
        let ghost k = i - (n - d.len());
        let c = t[i];
        assert(c == d[k]);
        if !((c as u32) >= 48 && (c as u32) <= 57) {
            return None;
        }
        assert(d.take(k + 1).drop_last() == d.take(k));
        value = value * 10 + (c as u32 - 48);
        if value > 65535 {
            proof {
                if forall|q: int| 0 <= q < d.len() ==> is_digit(#[trigger] d[q]) {
                    lemma_digits_grow(d, k + 1);
                }
            }
            return None;
        }
        i = i + 1;
    }
    assert(d.take(d.len() as int) == d);
    Some(value as u16)
}

/// What the server starts with: its bindings and the port it listens on.
pub struct ServerSettings {
    pub bindings: Bindings,
    pub port: u16,
}

/// What the user's bindings text and port text give: the bindings are read
/// first, and the port only when they are good.
pub open spec fn settings_of(bindings_text: Seq<char>, port_text: Seq<char>, table: &KeycodeTable) -> Result<
    (Map<Seq<char>, Seq<char>>, u16),
    StartErrorView,
> {
    match bindings_of_text(bindings_text, table) {
        Err(e) => Err(e),
        Ok(m) => match port_value(port_text) {
            None => Err(StartErrorView::InvalidPort),
            Some(p) => Ok((m, p)),
        },
    }
}

/// Reads what the user entered to start the server.
pub fn read_settings(bindings_text: &str, port_text: &str, table: &KeycodeTable) -> (r: Result<
    ServerSettings,
    StartError,
>)
    ensures
        r matches Ok(s) ==> settings_of(bindings_text@, port_text@, table) == Ok::<
            (Map<Seq<char>, Seq<char>>, u16),
            StartErrorView,
        >((s.bindings@, s.port)),
        r matches Err(e) ==> settings_of(bindings_text@, port_text@, table) == Err::<
            (Map<Seq<char>, Seq<char>>, u16),
            StartErrorView,
        >(e@),
{
    let bindings = match parse_bindings(bindings_text, table) {
        Ok(b) => b,
        Err(e) => {
            return Err(e);
        },
    };
    match parse_port(port_text) {
        Some(port) => Ok(ServerSettings { bindings, port }),
        None => Err(StartError::InvalidPort),
    }
}

/// A string without line feeds is one line.
proof fn lemma_one_line(b: Seq<char>)
    requires
        forall|i: int| 0 <= i < b.len() ==> b[i] != '\n',
    ensures
        split_lines(b) == seq![b],
    decreases b.len(),
{
    if b.len() > 0 {
        lemma_one_line(b.drop_last());
        assert(b.last() != '\n');
        assert(b.drop_last().push(b.last()) == b);
        assert(seq![b.drop_last()].update(0, b) == seq![b]);
    } else {
        assert(b == Seq::<char>::empty());
    }
}

/// A line feed and a string without line feeds add one line.
proof fn lemma_add_line(a: Seq<char>, b: Seq<char>)
    requires
        forall|i: int| 0 <= i < b.len() ==> b[i] != '\n',
    ensures
        split_lines(a + seq!['\n'] + b) == split_lines(a).push(b),
    decreases b.len(),
{
    let s = a + seq!['\n'] + b;
    if b.len() == 0 {
        assert(b == Seq::<char>::empty());
        assert(s == (a + seq!['\n']));
        assert(s.drop_last() == a);
        assert(s.last() == '\n');
    } else {
        lemma_add_line(a, b.drop_last());
        assert(s.drop_last() == a + seq!['\n'] + b.drop_last());
        assert(s.last() == b.last());
        assert(b.last() != '\n');
        assert(b.drop_last().push(b.last()) == b);
        let p = split_lines(a).push(b.drop_last());
        assert(p.update(p.len() - 1, p.last().push(s.last())) == split_lines(a).push(b));
    }
}

/// The line `client => server` is not blank, holds one `=>`, and its two
/// sides read as `client` and `server`.
proof fn lemma_binding_line(client: Seq<char>, server: Seq<char>)
    requires
        crate::text::trim(client) == client,
        crate::text::trim(server) == server,
        forall|i: int| !is_arrow_at(client, i),
        forall|i: int| !is_arrow_at(server, i),
    ensures
        crate::text::trim(client + " => "@ + server).len() > 0,
        has_single_arrow(client + " => "@ + server),
        line_client(client + " => "@ + server) == client,
        line_server(client + " => "@ + server) == server,
{
    reveal_strlit(" => ");
    let l = client + " => "@ + server;
    let n = client.len() as int;
    assert(l[n + 1] == '=');
    crate::text::lemma_trim_nonempty(l, n + 1);
    assert(is_arrow_at(l, n + 1));
    assert forall|j: int| #[trigger] is_arrow_at(l, j) implies j == n + 1 by {
        if j + 1 < n {
            assert(is_arrow_at(client, j));
        } else if j >= n + 4 {
            assert(l[j] == server[j - n - 4]);
            assert(l[j + 1] == server[j + 1 - n - 4]);
            assert(is_arrow_at(server, j - n - 4));
        }
    }
    assert(is_single_arrow_at(l, n + 1));
    assert(arrow_index(l) == n + 1);
    assert(l.take(n + 1) == client.push(' '));
    assert(l.skip(n + 3) == seq![' '] + server);
    assert(client.push(' ').drop_last() == client);
    assert((seq![' '] + server).skip(1) == server);
    if client.len() > 0 {
        crate::text::lemma_trimmed_ends(client);
        assert(client.push(' ')[0] == client[0]);
        assert(crate::text::trim_start(client.push(' ')) == client.push(' '));
        assert(crate::text::trim_end(client.push(' ')) == crate::text::trim_end(client));
        assert(crate::text::trim_start(client) == client);
    } else {
        assert(client.push(' ') == seq![' ']);
        assert(seq![' '].skip(1) == Seq::<char>::empty());
        assert((' ' as u32) == 0x20);
        assert(crate::text::is_white_space(' '));
        assert(crate::text::trim_start(Seq::<char>::empty()) == Seq::<char>::empty());
        assert(crate::text::trim_start(seq![' ']) == Seq::<char>::empty());
        assert(client == Seq::<char>::empty());
    }
    assert(line_client(l) == client);
    assert(crate::text::trim_start(seq![' '] + server) == crate::text::trim_start(server));
    if server.len() > 0 {
        crate::text::lemma_trimmed_ends(server);
    }
    assert(crate::text::trim_start(server) == server);
    assert(line_server(l) == server);
}

/// What adding the binding `client => server` to a bindings text does to the
/// bindings it gives. A bad text stays bad, with the same error. Otherwise,
/// when both names are names of entries of the key table, `client` is now
/// bound to `server` and every other binding stays; when the client name is
/// no entry's name, the text is refused for that name; and when only the
/// server name is no entry's name, it is refused for that one. The names must
/// have no surrounding white space, line feed or `=>`.
pub proof fn lemma_added_binding_is_read(
    text: Seq<char>,
    client: Seq<char>,
    server: Seq<char>,
    table: &KeycodeTable,
)
    requires
        crate::text::trim(client) == client,
        crate::text::trim(server) == server,
        forall|i: int| 0 <= i < client.len() ==> client[i] != '\n',
        forall|i: int| 0 <= i < server.len() ==> server[i] != '\n',
        forall|i: int| !is_arrow_at(client, i),
        forall|i: int| !is_arrow_at(server, i),
    ensures
        bindings_of_text(text, table) is Err ==> bindings_of_text(
            appended_text(text, client, server),
            table,
        ) == bindings_of_text(text, table),
        bindings_of_text(text, table) is Ok && (exists|k: int|
            0 <= k < table.names().len() && #[trigger] table.names()[k] == client) && (exists|k: int|
            0 <= k < table.names().len() && #[trigger] table.names()[k] == server) ==> bindings_of_text(
            appended_text(text, client, server),
            table,
        ) == Ok::<Map<Seq<char>, Seq<char>>, StartErrorView>(
            bindings_of_text(text, table)->Ok_0.insert(client, server),
        ),
        bindings_of_text(text, table) is Ok && (forall|k: int|
            0 <= k < table.names().len() ==> #[trigger] table.names()[k] != client) ==> bindings_of_text(
            appended_text(text, client, server),
            table,
        ) == Err::<Map<Seq<char>, Seq<char>>, StartErrorView>(StartErrorView::InvalidBinding(client)),
        bindings_of_text(text, table) is Ok && (exists|k: int|
            0 <= k < table.names().len() && #[trigger] table.names()[k] == client) && (forall|k: int|
            0 <= k < table.names().len() ==> #[trigger] table.names()[k] != server) ==> bindings_of_text(
            appended_text(text, client, server),
            table,
        ) == Err::<Map<Seq<char>, Seq<char>>, StartErrorView>(StartErrorView::InvalidBinding(server)),
{
    reveal_strlit(" => ");
    reveal_strlit("\n");
    let l = client + " => "@ + server;
    assert forall|i: int| 0 <= i < l.len() implies l[i] != '\n' by {
        if i < client.len() {
        } else if i >= client.len() + 4 {
            assert(l[i] == server[i - client.len() - 4]);
        }
    }
    lemma_binding_line(client, server);
    table.lemma_has_name_exactly(client);
    table.lemma_has_name_exactly(server);
    if text.len() > 0 {
        assert(appended_text(text, client, server) == text + seq!['\n'] + l);
        lemma_add_line(text, l);
        assert(split_lines(text).push(l).drop_last() == split_lines(text));
    } else {
        assert(text == Seq::<char>::empty());
        assert(appended_text(text, client, server) == l);
        lemma_one_line(l);
        assert(split_lines(text) == seq![Seq::<char>::empty()]);
        assert(seq![l].drop_last() == Seq::<Seq<char>>::empty());
        assert(seq![Seq::<char>::empty()].drop_last() == Seq::<Seq<char>>::empty());
        assert(crate::text::trim(Seq::<char>::empty()) == Seq::<char>::empty());
        assert(bindings_of_lines(Seq::<Seq<char>>::empty(), table) == Ok::<
            Map<Seq<char>, Seq<char>>,
            StartErrorView,
        >(Map::empty()));
        assert(bindings_of_text(text, table) == Ok::<
            Map<Seq<char>, Seq<char>>,
            StartErrorView,
        >(Map::empty()));
    }
}

proof fn lemma_digit_char_value(k: int)
    requires
        0 <= k < 10,
    ensures
        is_digit(crate::text::digit_char(k)),
        digit_value(crate::text::digit_char(k)) == k,
{
    assert('0' as u32 == 48 && '1' as u32 == 49 && '2' as u32 == 50 && '3' as u32 == 51 && '4' as u32
        == 52 && '5' as u32 == 53 && '6' as u32 == 54 && '7' as u32 == 55 && '8' as u32 == 56 && '9' as u32
        == 57);
}

/// The decimal writing of a number reads as digits, back to that number.
proof fn lemma_decimal_digits(n: nat)
    ensures
        crate::text::decimal(n).len() > 0,
        forall|i: int|
            0 <= i < crate::text::decimal(n).len() ==> is_digit(#[trigger] crate::text::decimal(n)[i]),
        digits_value(crate::text::decimal(n)) == n,
    decreases n,
{
    let d = crate::text::decimal(n);
    if n < 10 {
        lemma_digit_char_value(n as int);
        assert(d == seq![crate::text::digit_char(n as int)]);
        assert(d.drop_last() == Seq::<char>::empty());
        assert(digits_value(Seq::<char>::empty()) == 0);
        assert(d.last() == crate::text::digit_char(n as int));
        assert(digits_value(d) == digits_value(d.drop_last()) * 10 + digit_value(d.last()));
    } else {
        lemma_decimal_digits(n / 10);
        let h = crate::text::decimal(n / 10);
        assert(d == h.push(crate::text::digit_char((n % 10) as int)));
        assert(d.drop_last() == h);
        lemma_digit_char_value((n % 10) as int);
        assert((n / 10) * 10 + n % 10 == n);
        assert(d.last() == crate::text::digit_char((n % 10) as int));
        assert(digits_value(d) == digits_value(h) * 10 + digit_value(d.last()));
        assert forall|i: int| 0 <= i < d.len() implies is_digit(#[trigger] d[i]) by {
            if i < h.len() {
                assert(d[i] == h[i]);
            }
        }
    }
}

/// A port written in decimal, as the client writes it into an address,
/// reads back as that port.
pub proof fn lemma_port_reads_back(port: u16)
    ensures
        port_value(crate::text::decimal(port as nat)) == Some(port),
{
    lemma_decimal_digits(port as nat);
    let d = crate::text::decimal(port as nat);
    assert(is_digit(d[0]));
    assert(port_digits(d) == d);
}

/// The lines of `ls` that are not blank (not empty once trimmed), in order.
pub open spec fn non_blank_lines(ls: Seq<Seq<char>>) -> Seq<Seq<char>>
    decreases ls.len(),
{
    if ls.len() == 0 {
        seq![]
    } else if crate::text::trim(ls.last()).len() == 0 {
        non_blank_lines(ls.drop_last())
    } else {
        non_blank_lines(ls.drop_last()).push(ls.last())
    }
}

/// Blank lines change nothing: lines read as their non-blank lines do.
pub proof fn lemma_blank_lines_ignored(ls: Seq<Seq<char>>, table: &KeycodeTable)
    ensures
        bindings_of_lines(ls, table) == bindings_of_lines(non_blank_lines(ls), table),
    decreases ls.len(),
{
    if ls.len() > 0 {
        lemma_blank_lines_ignored(ls.drop_last(), table);
        let nb = non_blank_lines(ls.drop_last());
        if crate::text::trim(ls.last()).len() != 0 {
            assert(nb.push(ls.last()).drop_last() == nb);
            assert(nb.push(ls.last()).last() == ls.last());
        }
    }
}

/// Two bindings texts that differ only by blank lines (lines that are empty
/// or white space only, added or removed anywhere) give the same settings
/// with the same port text: the same bindings and port, or the same error.
pub proof fn lemma_blank_lines_change_nothing(
    text1: Seq<char>,
    text2: Seq<char>,
    port_text: Seq<char>,
    table: &KeycodeTable,
)
    requires
        non_blank_lines(split_lines(text1)) == non_blank_lines(split_lines(text2)),
    ensures
        bindings_of_text(text1, table) == bindings_of_text(text2, table),
        settings_of(text1, port_text, table) == settings_of(text2, port_text, table),
{
    lemma_blank_lines_ignored(split_lines(text1), table);
    lemma_blank_lines_ignored(split_lines(text2), table);
}

proof fn lemma_digits_nonneg(s: Seq<char>)
    requires
        forall|i: int| 0 <= i < s.len() ==> is_digit(#[trigger] s[i]),
    ensures
        digits_value(s) >= 0,
    decreases s.len(),
{
    if s.len() > 0 {
        assert(is_digit(s[s.len() - 1]));
        assert forall|i: int| 0 <= i < s.drop_last().len() implies is_digit(#[trigger] s.drop_last()[i]) by {
            assert(s.drop_last()[i] == s[i]);
        }
        lemma_digits_nonneg(s.drop_last());
    }
}

/// A port text reads as a port exactly when, after an optional leading `+`,
/// it is a non-empty string of ASCII digits whose decimal value is at most
/// 65535; the port is that value.
pub proof fn lemma_port_value_exact(s: Seq<char>)
    ensures
        port_value(s) is Some <==> {
            &&& port_digits(s).len() > 0
            &&& forall|i: int|
                0 <= i < port_digits(s).len() ==> 48 <= (#[trigger] port_digits(s)[i]) as u32 <= 57
            &&& digits_value(port_digits(s)) <= 65535
        },
        port_value(s) matches Some(p) ==> p == digits_value(port_digits(s)),
{
    if port_value(s) is Some {
        lemma_digits_nonneg(port_digits(s));
    }
}

/// One digit reads as the port it stands for.
pub proof fn lemma_port_single_digit(c: char)
    requires
        48 <= c as u32 <= 57,
    ensures
        port_value(seq![c]) == Some((c as u32 - 48) as u16),
{
    let d = seq![c];
    assert(d[0] != '+');
    assert(port_digits(d) == d);
    assert(d.drop_last() == Seq::<char>::empty());
    assert(digits_value(Seq::<char>::empty()) == 0);
    assert(d.last() == c);
    assert(digits_value(d) == c as u32 - 48);
    assert(is_digit(d[0]));
}

/// One more character after a port text: a digit makes the port ten times
/// larger plus that digit, unless that passes 65535, and then, like any
/// character that is not a digit, the text is no port at all.
pub proof fn lemma_port_next_char(s: Seq<char>, c: char)
    requires
        port_value(s) is Some,
    ensures
        port_value(s.push(c)) == if 48 <= c as u32 <= 57 && port_value(s)->Some_0 as int * 10 + (c as u32
            - 48) <= 65535 {
            Some((port_value(s)->Some_0 as int * 10 + (c as u32 - 48)) as u16)
        } else {
            None
        },
{
    let d = port_digits(s);
    let e = port_digits(s.push(c));
    assert(s.len() > 0);
    assert(s.push(c)[0] == s[0]);
    if s[0] == '+' {
        assert(s.push(c).skip(1) == s.skip(1).push(c));
    }
    assert(e == d.push(c));
    assert(e.drop_last() == d);
    assert(e.last() == c);
    assert(forall|i: int| 0 <= i < d.len() ==> e[i] == d[i]);
    lemma_digits_nonneg(d);
    assert(port_value(s)->Some_0 as int == digits_value(d));
    assert(digits_value(e) == digits_value(d) * 10 + digit_value(c));
    if 48 <= c as u32 <= 57 {
        assert forall|i: int| 0 <= i < e.len() implies is_digit(#[trigger] e[i]) by {
            if i < d.len() {
                assert(e[i] == d[i]);
            }
        }
    } else {
        assert(!is_digit(e[e.len() - 1]));
    }
}

/// What the server starts with: a bad bindings text gives its error; a good
/// one gives its bindings with the port when the port text reads as a port
/// (whatever the bindings are, none included), and the port error when it
/// does not.
pub proof fn lemma_settings_outcome(bindings_text: Seq<char>, port_text: Seq<char>, table: &KeycodeTable)
    ensures
        bindings_of_text(bindings_text, table) is Err ==> settings_of(bindings_text, port_text, table)
            == Err::<(Map<Seq<char>, Seq<char>>, u16), StartErrorView>(
            bindings_of_text(bindings_text, table)->Err_0,
        ),
        bindings_of_text(bindings_text, table) is Ok && port_value(port_text) is Some ==> settings_of(
            bindings_text,
            port_text,
            table,
        ) == Ok::<(Map<Seq<char>, Seq<char>>, u16), StartErrorView>(
            (bindings_of_text(bindings_text, table)->Ok_0, port_value(port_text)->Some_0),
        ),
        bindings_of_text(bindings_text, table) is Ok && port_value(port_text) is None ==> settings_of(
            bindings_text,
            port_text,
            table,
        ) == Err::<(Map<Seq<char>, Seq<char>>, u16), StartErrorView>(StartErrorView::InvalidPort),
{
}

/// Every character of every line of `t` is a character of `t`.
proof fn lemma_line_chars(t: Seq<char>, k: int, j: int)
    requires
        0 <= k < split_lines(t).len(),
        0 <= j < split_lines(t)[k].len(),
    ensures
        exists|q: int| 0 <= q < t.len() && t[q] == split_lines(t)[k][j],
    decreases t.len(),
{
    if t.len() == 0 {
    } else {
        let p = split_lines(t.drop_last());
        lemma_split_lines_nonempty(t.drop_last());
        if t.last() == '\n' {
            assert(split_lines(t) == p.push(seq![]));
            assert(k < p.len());
            lemma_line_chars(t.drop_last(), k, j);
            let q = choose|q: int| 0 <= q < t.drop_last().len() && t.drop_last()[q] == p[k][j];
            assert(t[q] == t.drop_last()[q]);
        } else {
            assert(split_lines(t) == p.update(p.len() - 1, p.last().push(t.last())));
            if k == p.len() - 1 && j == p.last().len() {
                assert(t[t.len() - 1] == split_lines(t)[k][j]);
            } else {
                assert(split_lines(t)[k][j] == p[k][j]);
                lemma_line_chars(t.drop_last(), k, j);
                let q = choose|q: int| 0 <= q < t.drop_last().len() && t.drop_last()[q] == p[k][j];
                assert(t[q] == t.drop_last()[q]);
            }
        }
    }
}

proof fn lemma_white_trims_empty(s: Seq<char>)
    requires
        forall|i: int| 0 <= i < s.len() ==> crate::text::is_white_space(#[trigger] s[i]),
    ensures
        crate::text::trim(s).len() == 0,
    decreases s.len(),
{
    if s.len() > 0 {
        assert(crate::text::trim_start(s) == crate::text::trim_start(s.skip(1)));
        assert forall|i: int| 0 <= i < s.skip(1).len() implies crate::text::is_white_space(
            #[trigger] s.skip(1)[i],
        ) by {
            assert(s.skip(1)[i] == s[i + 1]);
        }
        lemma_white_trims_empty(s.skip(1));
    } else {
        assert(crate::text::trim_start(s) == s);
    }
}

proof fn lemma_no_non_blank(ls: Seq<Seq<char>>)
    requires
        forall|k: int| 0 <= k < ls.len() ==> crate::text::trim(#[trigger] ls[k]).len() == 0,
    ensures
        non_blank_lines(ls) == Seq::<Seq<char>>::empty(),
    decreases ls.len(),
{
    if ls.len() > 0 {
        assert(crate::text::trim(ls[ls.len() - 1]).len() == 0);
        assert forall|k: int| 0 <= k < ls.drop_last().len() implies crate::text::trim(
            #[trigger] ls.drop_last()[k],
        ).len() == 0 by {
            assert(ls.drop_last()[k] == ls[k]);
        }
        lemma_no_non_blank(ls.drop_last());
    }
}

/// A bindings text of white space only, the empty text included, gives no
/// bindings; with a port text that reads as a port, the server starts with
/// no bindings and that port.
pub proof fn lemma_blank_text_has_no_bindings(text: Seq<char>, port_text: Seq<char>, table: &KeycodeTable)
    requires
        forall|i: int| 0 <= i < text.len() ==> crate::text::is_white_space(#[trigger] text[i]),
    ensures
        bindings_of_text(text, table) == Ok::<Map<Seq<char>, Seq<char>>, StartErrorView>(
            Map::empty(),
        ),
        port_value(port_text) is Some ==> settings_of(text, port_text, table) == Ok::<
            (Map<Seq<char>, Seq<char>>, u16),
            StartErrorView,
        >((Map::empty(), port_value(port_text)->Some_0)),
{
    let ls = split_lines(text);
    assert forall|k: int| 0 <= k < ls.len() implies crate::text::trim(#[trigger] ls[k]).len() == 0 by {
        assert forall|j: int| 0 <= j < ls[k].len() implies crate::text::is_white_space(
            #[trigger] ls[k][j],
        ) by {
            lemma_line_chars(text, k, j);
        }
        lemma_white_trims_empty(ls[k]);
    }
    lemma_no_non_blank(ls);
    lemma_blank_lines_ignored(ls, table);
}

} // verus!
