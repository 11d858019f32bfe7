//! Turning the bytes a client sent into the bytes it gets back.
//!
//! Only the first request line is inspected. A line equal to `GET / HTTP/1.1`
//! is answered `200 OK`, every other line `404 NOT FOUND`, both with the same
//! static content; when the content cannot be had the answer is
//! `500 INTERNAL SERVER ERROR` with an empty body.
use vstd::prelude::*;

verus! {

/// The byte `'\n'`.
pub const LF: u8 = 10;

/// The byte `'\r'`.
pub const CR: u8 = 13;

/// What a worker answers, decided by the request line and by whether the
/// static content could be read.
#[derive(PartialEq, Eq, Structural, Clone, Copy, Debug)]
pub enum Status {
    Found,
    NotFound,
    ServerError,
}

/// How the request line is compared with the root request.
#[derive(PartialEq, Eq, Structural, Clone, Copy, Debug)]
pub enum LineMatch {
    /// The line must equal `GET / HTTP/1.1` byte for byte.
    Exact,
    /// Trailing ASCII whitespace is ignored before the comparison.
    TrimEnd,
}

/// `GET / HTTP/1.1`
pub open spec fn root_line() -> Seq<u8> {
    seq![71u8, 69, 84, 32, 47, 32, 72, 84, 84, 80, 47, 49, 46, 49]
}

/// `k` is where the first line of `s` ends: the first `'\n'`, or the end of `s`.
pub open spec fn is_line_end(s: Seq<u8>, k: int) -> bool {
    &&& 0 <= k <= s.len()
    &&& k < s.len() ==> s[k] == LF
    &&& forall|i: int| 0 <= i < k ==> s[i] != LF
}

pub open spec fn line_end(s: Seq<u8>) -> int {
    choose|k: int| is_line_end(s, k)
}

/// A line without its terminating `'\r'`, if it has one.
pub open spec fn strip_cr(l: Seq<u8>) -> Seq<u8> {
    if l.len() > 0 && l.last() == CR {
        l.drop_last()
    } else {
        l
    }
}

/// The first request line of what a client sent, without its line ending;
/// `None` when the client sent nothing at all.
pub open spec fn first_line(raw: Seq<u8>) -> Option<Seq<u8>> {
    if raw.len() == 0 {
        None
    } else {
        Some(strip_cr(raw.take(line_end(raw))))
    }
}

pub open spec fn is_ascii_space(b: u8) -> bool {
    b == 32 || b == 9 || b == CR || b == LF
}

/// `s` without its trailing ASCII whitespace.
pub open spec fn trim_end(s: Seq<u8>) -> Seq<u8>
    decreases s.len(),
{
    if s.len() > 0 && is_ascii_space(s.last()) {
        trim_end(s.drop_last())
    } else {
        s
    }
}

pub open spec fn is_root(line: Seq<u8>, mode: LineMatch) -> bool {
    match mode {
        LineMatch::Exact => line == root_line(),
        LineMatch::TrimEnd => trim_end(line) == root_line(),
    }
}

pub open spec fn route_of(line: Seq<u8>, mode: LineMatch) -> Status {
    if is_root(line, mode) {
        Status::Found
    } else {
        Status::NotFound
    }
}

pub open spec fn status_line_of(status: Status) -> Seq<u8> {
    match status {
        // HTTP/1.1 200 OK
        Status::Found => seq![72u8, 84, 84, 80, 47, 49, 46, 49, 32, 50, 48, 48, 32, 79, 75],
        // HTTP/1.1 404 NOT FOUND
        Status::NotFound => seq![
            72u8, 84, 84, 80, 47, 49, 46, 49, 32, 52, 48, 52, 32, 78, 79, 84, 32, 70, 79, 85, 78,
            68,
        ],
        // HTTP/1.1 500 INTERNAL SERVER ERROR
        Status::ServerError => seq![
            72u8, 84, 84, 80, 47, 49, 46, 49, 32, 53, 48, 48, 32, 73, 78, 84, 69, 82, 78, 65, 76,
            32, 83, 69, 82, 86, 69, 82, 32, 69, 82, 82, 79, 82,
        ],
    }
}

/// `\r\nContent-Length: `
pub open spec fn length_header() -> Seq<u8> {
    seq![13u8, 10, 67, 111, 110, 116, 101, 110, 116, 45, 76, 101, 110, 103, 116, 104, 58, 32]
}

/// `\r\n\r\n`
pub open spec fn header_end() -> Seq<u8> {
    seq![13u8, 10, 13, 10]
}

/// The decimal digits of `n`, most significant first, with no leading zero.
pub open spec fn decimal(n: nat) -> Seq<u8>
    decreases n,
{
    if n < 10 {
        seq![(48 + n) as u8]
    } else {
        decimal(n / 10).push((48 + n % 10) as u8)
    }
}

/// The number that a string of decimal digits stands for.
pub open spec fn decimal_value(s: Seq<u8>) -> nat
    decreases s.len(),
{
    if s.len() == 0 {
        0
    } else {
        decimal_value(s.drop_last()) * 10 + (s.last() - 48) as nat
    }
}

pub open spec fn is_digit(b: u8) -> bool {
    48 <= b <= 57
}

/// The whole response: status line, the length of the body, a blank line, the body.
pub open spec fn response_of(status: Status, body: Seq<u8>) -> Seq<u8> {
    status_line_of(status) + length_header() + decimal(body.len()) + header_end() + body
}

/// The response to what a client sent, given the static content if it could
/// be read; `None` when the client sent nothing.
pub open spec fn handle_of(raw: Seq<u8>, mode: LineMatch, content: Option<Seq<u8>>) -> Option<
    Seq<u8>,
> {
    match first_line(raw) {
        None => None,
        Some(line) => Some(
            match content {
                Some(body) => response_of(route_of(line, mode), body),
                None => response_of(Status::ServerError, Seq::empty()),
            },
        ),
    }
}

pub open spec fn content_view(content: Option<&[u8]>) -> Option<Seq<u8>> {
    match content {
        Some(c) => Some(c@),
        None => None,
    }
}

proof fn lemma_line_end_unique(s: Seq<u8>, k: int)
    requires
        is_line_end(s, k),
    ensures
        line_end(s) == k,
{
    let j = line_end(s);
    assert(is_line_end(s, j));
    if j < k {
        assert(s[j] != LF);
    } else if k < j {
        assert(s[k] != LF);
    }
}

fn push_all(out: &mut Vec<u8>, s: &[u8])
    ensures
        final(out)@ == old(out)@ + s@,
{
    let mut i: usize = 0;
    while i < s.len()
        invariant
            0 <= i <= s@.len(),
            out@ == old(out)@ + s@.take(i as int),
        decreases s@.len() - i,
    {
        out.push(s[i]);
        i = i + 1;
        assert(s@.take(i as int) =~= s@.take(i - 1) .push(s@[i - 1]));
    }
    assert(s@.take(s@.len() as int) =~= s@);
}

fn bytes_eq(a: &[u8], b: &[u8]) -> (r: bool)
    ensures
        r == (a@ == b@),
{
    if a.len() != b.len() {
        return false;
    }
    let mut i: usize = 0;
    while i < a.len()
        invariant
            a@.len() == b@.len(),
            0 <= i <= a@.len(),
            forall|j: int| 0 <= j < i ==> a@[j] == b@[j],
        decreases a@.len() - i,
    {
        if a[i] != b[i] {
            return false;
        }
        i = i + 1;
    }
    assert(a@ =~= b@);
    true
}

fn root_line_bytes() -> (r: Vec<u8>)
    ensures
        r@ == root_line(),
{
    let r: Vec<u8> = vec![71u8, 69, 84, 32, 47, 32, 72, 84, 84, 80, 47, 49, 46, 49];
    assert(r@ =~= root_line());
    r
}

/// Where the first line of `raw` ends: the index of its first `'\n'`, or its length.
pub fn find_line_end(raw: &[u8]) -> (k: usize)
    ensures
        is_line_end(raw@, k as int),
        k as int == line_end(raw@),
{
    let mut k: usize = 0;
    while k < raw.len() && raw[k] != LF
        invariant
            0 <= k <= raw@.len(),
            forall|i: int| 0 <= i < k ==> raw@[i] != LF,
        decreases raw@.len() - k,
    {
        k = k + 1;
    }
    proof {
        lemma_line_end_unique(raw@, k as int);
    }
    k
}

/// The first request line of what a client sent, without `"\n"` or `"\r\n"`;
/// `None` when nothing was sent, which abandons the connection.
pub fn request_line(raw: &[u8]) -> (r: Option<Vec<u8>>)
    ensures
        r is None <==> raw@.len() == 0,
        r matches Some(l) ==> Some(l@) == first_line(raw@),
{
    if raw.len() == 0 {
        return None;
    }
    let k = find_line_end(raw);
    let mut end = k;
    if end > 0 && raw[end - 1] == CR {
        end = end - 1;
    }
    let mut line: Vec<u8> = Vec::new();
    push_all(&mut line, &raw[0..end]);
    proof {
        let t = raw@.take(k as int);
        assert(raw@.subrange(0, end as int) =~= strip_cr(t));
    }
    Some(line)
}

/// The length of `line` once its trailing ASCII whitespace is left out.
pub fn trimmed_len(line: &[u8]) -> (n: usize)
    ensures
        n <= line@.len(),
        line@.take(n as int) == trim_end(line@),
{
    let mut n: usize = line.len();
    assert(line@.take(n as int) =~= line@);
    while n > 0 && (line[n - 1] == 32 || line[n - 1] == 9 || line[n - 1] == CR || line[n - 1] == LF)
        invariant
            0 <= n <= line@.len(),
            trim_end(line@.take(n as int)) == trim_end(line@),
        decreases n,
    {
        assert(line@.take(n as int).drop_last() =~= line@.take(n - 1));
        n = n - 1;
    }
    n
}

/// Whether `line` asks for the root document.
pub fn is_root_request(line: &[u8], mode: LineMatch) -> (r: bool)
    ensures
        r == is_root(line@, mode),
{
    let root = root_line_bytes();
    match mode {
        LineMatch::Exact => bytes_eq(line, root.as_slice()),
        LineMatch::TrimEnd => {
            let n = trimmed_len(line);
            bytes_eq(&line[0..n], root.as_slice())
        },
    }
}

/// The status that answers a request line.
pub fn route(line: &[u8], mode: LineMatch) -> (r: Status)
    ensures
        r == route_of(line@, mode),
{
    if is_root_request(line, mode) {
        Status::Found
    } else {
        Status::NotFound
    }
}

/// The file that holds the body for `status`; a server error has none.
pub fn content_path(status: Status) -> (r: Option<&'static str>)
    ensures
        r is None <==> status == Status::ServerError,
        r matches Some(p) ==> p@ == "hello.html"@,
{
    match status {
        Status::ServerError => None,
        _ => Some("hello.html"),
    }
}

/// The status line for `status`, without its line ending.
pub fn status_line(status: Status) -> (r: Vec<u8>)
    ensures
        r@ == status_line_of(status),
{
    let r: Vec<u8> = match status {
        Status::Found => vec![72u8, 84, 84, 80, 47, 49, 46, 49, 32, 50, 48, 48, 32, 79, 75],
        Status::NotFound => vec![
            72u8, 84, 84, 80, 47, 49, 46, 49, 32, 52, 48, 52, 32, 78, 79, 84, 32, 70, 79, 85, 78,
            68,
        ],
        Status::ServerError => vec![
            72u8, 84, 84, 80, 47, 49, 46, 49, 32, 53, 48, 48, 32, 73, 78, 84, 69, 82, 78, 65, 76,
            32, 83, 69, 82, 86, 69, 82, 32, 69, 82, 82, 79, 82,
        ],
    };
    assert(r@ =~= status_line_of(status));
    r
}

/// The decimal digits of `n`.
pub fn decimal_digits(n: usize) -> (r: Vec<u8>)
    ensures
        r@ == decimal(n as nat),
    decreases n,
{
    if n < 10 {
        let r: Vec<u8> = vec![48u8 + n as u8];
        assert(r@ =~= decimal(n as nat));
        r
    } else {
        let mut r = decimal_digits(n / 10);
        r.push(48u8 + (n % 10) as u8);
        r
    }
}

/// The complete response with `status` and `body`.
pub fn build_response(status: Status, body: &[u8]) -> (r: Vec<u8>)
    ensures
        r@ == response_of(status, body@),
{
    let mut r = status_line(status);
    let header: Vec<u8> = vec![
        13u8, 10, 67, 111, 110, 116, 101, 110, 116, 45, 76, 101, 110, 103, 116, 104, 58, 32,
    ];
    assert(header@ =~= length_header());
    push_all(&mut r, header.as_slice());
    let digits = decimal_digits(body.len());
    push_all(&mut r, digits.as_slice());
    let end: Vec<u8> = vec![13u8, 10, 13, 10];
    assert(end@ =~= header_end());
    push_all(&mut r, end.as_slice());
    push_all(&mut r, body);
    r
}

/// The response to what a client sent, given the static content if it could
/// be read. `None` when the client sent nothing: the connection is abandoned
/// and nothing is written.
pub fn handle(raw: &[u8], mode: LineMatch, content: Option<&[u8]>) -> (r: Option<Vec<u8>>)
    ensures
        r is None <==> raw@.len() == 0,
        r matches Some(v) ==> handle_of(raw@, mode, content_view(content)) == Some(v@),
{
    match request_line(raw) {
        None => None,
        Some(line) => match content {
            Some(body) => Some(build_response(route(line.as_slice(), mode), body)),
            None => {
                let empty: Vec<u8> = Vec::new();
                Some(build_response(Status::ServerError, empty.as_slice()))
            },
        },
    }
}

/// Reading back the decimal digits of `n` gives `n`, and they are all digits.
pub proof fn lemma_decimal_round_trip(n: nat)
    ensures
        decimal_value(decimal(n)) == n,
        decimal(n).len() >= 1,
        forall|i: int| 0 <= i < decimal(n).len() ==> is_digit(#[trigger] decimal(n)[i]),
    decreases n,
{
    if n < 10 {
        let d = decimal(n);
        assert(d.drop_last() =~= Seq::<u8>::empty());
        assert(decimal_value(Seq::<u8>::empty()) == 0);
    } else {
        lemma_decimal_round_trip(n / 10);
        let p = decimal(n / 10);
        let d = decimal(n);
        assert(d.drop_last() =~= p);
        assert(forall|i: int| 0 <= i < p.len() ==> d[i] == p[i]);
        assert(d.last() == (48 + n % 10) as u8);
        assert(n == (n / 10) * 10 + n % 10) by (nonlinear_arith);
    }
}

/// Every response is framed the same way: its status line, the
/// `Content-Length` header whose value reads back as the body's length in
/// bytes, a blank line, and then exactly the body.
pub proof fn lemma_response_framing(status: Status, body: Seq<u8>)
    ensures
        ({
            let r = response_of(status, body);
            let s = status_line_of(status);
            let d = decimal(body.len());
            let dl: int = d.len() as int;
            let h: int = (s.len() + length_header().len()) as int;
            &&& r.take(s.len() as int) == s
            &&& r.subrange(s.len() as int, h) == length_header()
            &&& r.subrange(h, h + dl) == d
            &&& decimal_value(d) == body.len()
            &&& forall|i: int| 0 <= i < d.len() ==> is_digit(#[trigger] d[i])
            &&& r.subrange(h + dl, h + dl + 4) == header_end()
            &&& r.len() == h + dl + 4 + body.len()
            &&& r.skip(h + dl + 4) == body
        }),
{
    let r = response_of(status, body);
    let s = status_line_of(status);
    let d = decimal(body.len());
    let dl: int = d.len() as int;
    let h: int = (s.len() + length_header().len()) as int;
    lemma_decimal_round_trip(body.len());
    assert(r.take(s.len() as int) =~= s);
    assert(r.subrange(s.len() as int, h) =~= length_header());
    assert(r.subrange(h, h + dl) =~= d);
    assert(r.subrange(h + dl, h + dl + 4) =~= header_end());
    assert(r.skip(h + dl + 4) =~= body);
}

/// The request line `GET / HTTP/1.1` is answered `200 OK`, with the static
/// content as its body.
pub proof fn lemma_root_request_found(raw: Seq<u8>, mode: LineMatch, body: Seq<u8>)
    requires
        first_line(raw) == Some(root_line()),
    ensures
        route_of(root_line(), mode) == Status::Found,
        handle_of(raw, mode, Some(body)) == Some(response_of(Status::Found, body)),
{
    if mode == LineMatch::TrimEnd {
        reveal_with_fuel(trim_end, 2);
        assert(root_line().last() == 49);
    }
}

/// Under exact matching every request line but `GET / HTTP/1.1` is answered
/// `404 NOT FOUND`.
pub proof fn lemma_other_request_not_found(raw: Seq<u8>, body: Seq<u8>)
    requires
        first_line(raw) is Some,
        first_line(raw)->0 != root_line(),
    ensures
        route_of(first_line(raw)->0, LineMatch::Exact) == Status::NotFound,
        handle_of(raw, LineMatch::Exact, Some(body)) == Some(response_of(Status::NotFound, body)),
{
}

/// Two requests with the same first line, answered from the same content,
/// get the same response; its body is that content and its `Content-Length`
/// is the content's length.
pub proof fn lemma_repeated_request(raw1: Seq<u8>, raw2: Seq<u8>, mode: LineMatch, body: Seq<u8>)
    requires
        first_line(raw1) is Some,
        first_line(raw1) == first_line(raw2),
    ensures
        handle_of(raw1, mode, Some(body)) == handle_of(raw2, mode, Some(body)),
        ({
            let r = handle_of(raw1, mode, Some(body))->0;
            let s = status_line_of(route_of(first_line(raw1)->0, mode));
            let h: int = (s.len() + length_header().len()) as int;
            let d = decimal(body.len());
            let dl: int = d.len() as int;
            &&& r.subrange(h, h + dl) == d
            &&& decimal_value(d) == body.len()
            &&& r.skip(h + dl + 4) == body
        }),
{
    lemma_response_framing(route_of(first_line(raw1)->0, mode), body);
}

} // verus!
