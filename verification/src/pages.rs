use vstd::prelude::*;

use vstd::utf8::{is_continuation_byte, valid_utf8};

use crate::codec::{compressed, deflate_bytes, is_utf8};
use crate::server::WebServer;
use crate::text::{
    append_bytes, copy_range, decimal, decimal_bytes, ends_with, find, first_match, lemma_first_match, occurs_at,
    split_bytes, split_on, starts_with, text, views,
};

verus! {

/// Status line and headers of an HTML page.
pub const HTTP_OK: &'static str = "HTTP/1.1 200 OK\r\nContent-Type: text/html; charset=UTF-8\r\n\r\n";

/// Status line and headers of a compressed HTML page.
pub const HTTP_OK_DEFLATE: &'static str = "HTTP/1.1 200 OK\r\nContent-Type: text/html; charset=UTF-8\r\nContent-Encoding: deflate\r\n\r\n";

/// Status line of a missing page.
pub const HTTP_BAD: &'static str = "HTTP/1.1 404 Not Found\r\n\r\n";

/// Status line and headers of any other file.
pub const HTTP_OK_BIN: &'static str = "HTTP/1.1 200 OK\r\nContent-Type: application/octet-stream;\r\n\r\n";

/// Status line and headers of any other file, compressed.
pub const HTTP_OK_BIN_DEFLATE: &'static str = "HTTP/1.1 200 OK\r\nContent-Type: application/octet-stream;\r\nContent-Encoding: deflate\r\n\r\n";

/// The head of the visitor counter page.
pub const COUNTER_STYLE: &'static str = "<doctype !html><html><head><title>Hello, Rust!</title>\n             <style>body { background-color: #884414; color: #FFEEAA}\n                    h1 { font-size:2cm; text-align: center; color: black; text-shadow: 0 0 4mm red }\n                    h2 { font-size:2cm; text-align: center; color: black; text-shadow: 0 0 4mm green }\n             </style></head>\n             <body>";

/// The counter page's text up to the count.
pub const COUNTER_GREETING: &'static str = "<h1>Greetings, Krusty!</h1>\n                     <h2>Visitor count: ";

/// The counter page's text after the count.
pub const COUNTER_END: &'static str = "</h2></body></html>\r\n";

/// The start of the body of a missing page.
pub const ERROR_PREFIX: &'static str = "Cannot open: ";

/// Files whose path ends so are sent as HTML.
pub const HTML_SUFFIX: &'static str = ".html";

/// Opens a server-side directive in a dynamic page.
pub const COMMENT_OPEN: &'static str = "<!--";

/// Closes a server-side directive in a dynamic page.
pub const COMMENT_CLOSE: &'static str = "-->";

/// The directive that runs a command; it is compared with the first ten
/// bytes of a directive.
pub const EXEC_DIRECTIVE: &'static str = "#exec cmd=";

/// How many bytes of a directive are compared with `EXEC_DIRECTIVE`.
pub const DIRECTIVE_LEN: usize = 10;

/// Delimits the command of an exec directive.
pub const QUOTE: &'static str = "\"";

proof fn lemma_literal_lengths()
    ensures
        text(COMMENT_OPEN).len() == 4,
        text(COMMENT_CLOSE).len() == 3,
        text(EXEC_DIRECTIVE).len() == 10,
        text(QUOTE).len() == 1,
        text(HTML_SUFFIX).len() == 5,
{
    reveal_strlit("<!--");
    reveal_strlit("-->");
    reveal_strlit("#exec cmd=");
    reveal_strlit("\"");
    reveal_strlit(".html");
    vstd::string::is_ascii_spec_bytes(COMMENT_OPEN);
    vstd::string::is_ascii_spec_bytes(COMMENT_CLOSE);
    vstd::string::is_ascii_spec_bytes(EXEC_DIRECTIVE);
    vstd::string::is_ascii_spec_bytes(QUOTE);
    vstd::string::is_ascii_spec_bytes(HTML_SUFFIX);
}

/// The visitor counter page, before compression.
pub open spec fn counter_page(count: nat) -> Seq<u8> {
    text(COUNTER_STYLE) + text(COUNTER_GREETING) + decimal(count) + text(COUNTER_END)
}

/// Writes the visitor counter page showing `count`.
pub fn counter_page_html(count: usize) -> (r: Vec<u8>)
    ensures
        r@ == counter_page(count as nat),
{
    let mut page: Vec<u8> = Vec::new();
    append_bytes(&mut page, COUNTER_STYLE.as_bytes());
    append_bytes(&mut page, COUNTER_GREETING.as_bytes());
    let digits = decimal_bytes(count as u64);
    append_bytes(&mut page, digits.as_slice());
    append_bytes(&mut page, COUNTER_END.as_bytes());
    page
}

/// The response to a request for the counter page: the compressed-HTML
/// headers, then the compressed page.
pub open spec fn counter_response(count: nat) -> Seq<u8> {
    text(HTTP_OK_DEFLATE) + compressed(counter_page(count))
}

/// The response to a request for a missing file or a directory.
pub open spec fn error_response(path: Seq<u8>) -> Seq<u8> {
    text(HTTP_BAD) + text(ERROR_PREFIX) + path
}

/// Whether a path names an HTML file: it ends with ".html".
pub open spec fn is_html(path: Seq<u8>) -> bool {
    text(HTML_SUFFIX).len() <= path.len() && path.subrange(
        path.len() - text(HTML_SUFFIX).len(),
        path.len() as int,
    ) == text(HTML_SUFFIX)
}

/// The headers sent before a static file: HTML or binary, compressed or not.
pub open spec fn static_headers(path: Seq<u8>, is_compressed: bool) -> Seq<u8> {
    if is_html(path) {
        if is_compressed {
            text(HTTP_OK_DEFLATE)
        } else {
            text(HTTP_OK)
        }
    } else {
        if is_compressed {
            text(HTTP_OK_BIN_DEFLATE)
        } else {
            text(HTTP_OK_BIN)
        }
    }
}

/// Chooses the headers for a static file.
pub fn static_file_headers(path: &[u8], is_compressed: bool) -> (r: &'static str)
    ensures
        text(r) == static_headers(path@, is_compressed),
{
    if ends_with(path, HTML_SUFFIX.as_bytes()) {
        if is_compressed {
            HTTP_OK_DEFLATE
        } else {
            HTTP_OK
        }
    } else {
        if is_compressed {
            HTTP_OK_BIN_DEFLATE
        } else {
            HTTP_OK_BIN
        }
    }
}

/// What one piece of a dynamic page (the text between two "<!--") gives.
pub enum PieceSpec {
    /// Text that is copied as it is.
    Text(Seq<u8>),
    /// An exec directive: the command's output takes its place.
    Command(Seq<u8>),
    /// A directive of another kind, left out.
    Skipped,
}

/// The directive of a piece: the text before its first "-->", if it has one.
pub open spec fn directive_of(piece: Seq<u8>) -> Option<Seq<u8>> {
    match first_match(piece, text(COMMENT_CLOSE), 0) {
        Some(k) => Some(piece.subrange(0, k)),
        None => None,
    }
}

/// Whether a directive runs a command: its first ten bytes are "#exec cmd=".
pub open spec fn is_exec(directive: Seq<u8>) -> bool {
    directive.len() >= DIRECTIVE_LEN && directive.subrange(0, DIRECTIVE_LEN as int) == text(
        EXEC_DIRECTIVE,
    )
}

/// The command of an exec directive: the text after its first double quote,
/// up to the next one or the end.
pub open spec fn command_of(directive: Seq<u8>) -> Seq<u8> {
    split_on(directive, text(QUOTE))[1]
}

/// What a piece gives.  Whatever follows a directive's "-->" in the piece is
/// left out.
pub open spec fn piece_kind(piece: Seq<u8>) -> PieceSpec {
    match directive_of(piece) {
        None => PieceSpec::Text(piece),
        Some(d) => if is_exec(d) {
            PieceSpec::Command(command_of(d))
        } else {
            PieceSpec::Skipped
        },
    }
}

/// A directive the server can read: it holds at least ten bytes, its first
/// ten bytes end on a character boundary, and an exec directive holds a
/// double quote.
pub open spec fn directive_ok(d: Seq<u8>) -> bool {
    &&& d.len() >= DIRECTIVE_LEN
    &&& (d.len() == DIRECTIVE_LEN || !is_continuation_byte(d[DIRECTIVE_LEN as int]))
    &&& (is_exec(d) ==> split_on(d, text(QUOTE)).len() >= 2)
}

/// A piece the server can read: text, or a readable directive.
pub open spec fn piece_ok(piece: Seq<u8>) -> bool {
    match directive_of(piece) {
        None => true,
        Some(d) => directive_ok(d),
    }
}

/// The pieces of a dynamic page: its text cut at each "<!--".
pub open spec fn page_pieces(content: Seq<u8>) -> Seq<Seq<u8>> {
    split_on(content, text(COMMENT_OPEN))
}

/// A dynamic page the server can render: well-formed UTF-8 and, when it holds
/// a "<!--", every piece readable.
pub open spec fn page_accepted(content: Seq<u8>) -> bool {
    &&& valid_utf8(content)
    &&& (page_pieces(content).len() == 1 || forall|i: int|
        0 <= i < page_pieces(content).len() ==> #[trigger] piece_ok(page_pieces(content)[i]))
}

/// The commands of a sequence of pieces, in order.
pub open spec fn commands_of(ps: Seq<Seq<u8>>) -> Seq<Seq<u8>>
    decreases ps.len(),
{
    if ps.len() == 0 {
        seq![]
    } else {
        match piece_kind(ps[0]) {
            PieceSpec::Command(c) => seq![c] + commands_of(ps.drop_first()),
            _ => commands_of(ps.drop_first()),
        }
    }
}

/// The text a sequence of pieces renders to, given the outputs of their
/// commands in order.
pub open spec fn render_pieces(ps: Seq<Seq<u8>>, outs: Seq<Seq<u8>>) -> Seq<u8>
    decreases ps.len(),
{
    if ps.len() == 0 {
        seq![]
    } else {
        match piece_kind(ps[0]) {
            PieceSpec::Text(t) => t + render_pieces(ps.drop_first(), outs),
            PieceSpec::Command(_) => outs[0] + render_pieces(ps.drop_first(), outs.drop_first()),
            PieceSpec::Skipped => render_pieces(ps.drop_first(), outs),
        }
    }
}

/// The commands a dynamic page runs, in order; none when it holds no "<!--".
pub open spec fn page_commands(content: Seq<u8>) -> Seq<Seq<u8>> {
    if page_pieces(content).len() == 1 {
        seq![]
    } else {
        commands_of(page_pieces(content))
    }
}

/// A dynamic page after its commands ran: the page as it is when it holds no
/// "<!--"; otherwise its pieces rendered with the commands' outputs.
pub open spec fn page_body(content: Seq<u8>, outs: Seq<Seq<u8>>) -> Seq<u8> {
    if page_pieces(content).len() == 1 {
        content
    } else {
        render_pieces(page_pieces(content), outs)
    }
}

/// The response to a request for a dynamic page.
pub open spec fn dynamic_response(content: Seq<u8>, outs: Seq<Seq<u8>>) -> Seq<u8> {
    text(HTTP_OK_DEFLATE) + compressed(page_body(content, outs))
}

/// The directive of a piece, if it has one.
fn piece_directive(piece: &[u8]) -> (r: Option<Vec<u8>>)
    ensures
        match r {
            Some(d) => directive_of(piece@) == Some(d@),
            None => directive_of(piece@) is None,
        },
{
    proof {
        lemma_literal_lengths();
    }
    match find(piece, COMMENT_CLOSE.as_bytes(), 0) {
        Some(k) => {
            proof {
                lemma_first_match(piece@, text(COMMENT_CLOSE), 0);
            }
            Some(copy_range(piece, 0, k))
        },
        None => None,
    }
}

/// Whether a directive runs a command.
fn directive_is_exec(d: &[u8]) -> (r: bool)
    ensures
        r == is_exec(d@),
{
    proof {
        lemma_literal_lengths();
    }
    starts_with(d, EXEC_DIRECTIVE.as_bytes())
}

/// Whether the server can read a directive.
fn directive_acceptable(d: &[u8]) -> (r: bool)
    ensures
        r == directive_ok(d@),
{
    proof {
        lemma_literal_lengths();
    }
    if d.len() < DIRECTIVE_LEN {
        return false;
    }
    if d.len() > DIRECTIVE_LEN && 0x80 <= d[DIRECTIVE_LEN] && d[DIRECTIVE_LEN] <= 0xbf {
        return false;
    }
    if directive_is_exec(d) {
        let parts = split_bytes(d, QUOTE.as_bytes());
        parts.len() >= 2
    } else {
        true
    }
}

/// The command of a readable exec directive.
fn directive_command(d: &[u8]) -> (r: Vec<u8>)
    requires
        directive_ok(d@),
        is_exec(d@),
    ensures
        r@ == command_of(d@),
{
    proof {
        lemma_literal_lengths();
    }
    let mut parts = split_bytes(d, QUOTE.as_bytes());
    parts.remove(1)
}

/// Whether the server can render a dynamic page.
pub fn dynamic_page_accepted(content: &[u8]) -> (r: bool)
    ensures
        r == page_accepted(content@),
{
    proof {
        lemma_literal_lengths();
    }
    if !is_utf8(content) {
        return false;
    }
    let pieces = split_bytes(content, COMMENT_OPEN.as_bytes());
    if pieces.len() == 1 {
        return true;
    }
    let n = pieces.len();
    let mut i: usize = 0;
    while i < n
        invariant
            n == pieces@.len(),
            n == page_pieces(content@).len(),
            n != 1,
            valid_utf8(content@),
            forall|k: int| 0 <= k < n ==> #[trigger] pieces@[k]@ == page_pieces(content@)[k],
            i <= n,
            forall|k: int| 0 <= k < i ==> #[trigger] piece_ok(page_pieces(content@)[k]),
        decreases n - i,
    {
        let ok = match piece_directive(pieces[i].as_slice()) {
            Some(d) => directive_acceptable(d.as_slice()),
            None => true,
        };
        if !ok {
            assert(!piece_ok(page_pieces(content@)[i as int]));
            return false;
        }
        i = i + 1;
    }
    true
}


/// The commands a readable dynamic page runs, in order.
pub fn dynamic_page_commands(content: &[u8]) -> (r: Vec<Vec<u8>>)
    requires
        page_accepted(content@),
    ensures
        views(r@) == page_commands(content@),
{
    proof {
        lemma_literal_lengths();
    }
    let pieces = split_bytes(content, COMMENT_OPEN.as_bytes());
    let mut cmds: Vec<Vec<u8>> = Vec::new();
    if pieces.len() == 1 {
        assert(views(cmds@) =~= Seq::<Seq<u8>>::empty());
        return cmds;
    }
    let ghost ps = page_pieces(content@);
    let n = pieces.len();
    let mut i: usize = 0;
    assert(ps.skip(0) =~= ps);
    assert(views(cmds@) =~= Seq::<Seq<u8>>::empty());
    while i < n
        invariant
            n == pieces@.len(),
            n == ps.len(),
            ps == page_pieces(content@),
            forall|k: int| 0 <= k < n ==> #[trigger] pieces@[k]@ == ps[k],
            forall|k: int| 0 <= k < n ==> #[trigger] piece_ok(ps[k]),
            i <= n,
            views(cmds@) + commands_of(ps.skip(i as int)) == commands_of(ps),
        decreases n - i,
    {
        let ghost before = views(cmds@);
        assert(ps.skip(i as int).drop_first() =~= ps.skip(i + 1));
        assert(ps.skip(i as int)[0] == ps[i as int]);
        assert(piece_ok(ps[i as int]));
        match piece_directive(pieces[i].as_slice()) {
            Some(d) => {
                if directive_is_exec(d.as_slice()) {
                    let c = directive_command(d.as_slice());
                    cmds.push(c);
                    assert(views(cmds@) =~= before + seq![c@]);
                }
            },
            None => {},
        }
        i = i + 1;
    }
    assert(ps.skip(n as int) =~= Seq::<Seq<u8>>::empty());
    cmds
}

/// A readable dynamic page after its commands ran, given their outputs in
/// order.
pub fn render_dynamic_page(content: &[u8], outputs: &Vec<Vec<u8>>) -> (r: Vec<u8>)
    requires
        page_accepted(content@),
        outputs@.len() == page_commands(content@).len(),
    ensures
        r@ == page_body(content@, views(outputs@)),
{
    proof {
        lemma_literal_lengths();
    }
    let pieces = split_bytes(content, COMMENT_OPEN.as_bytes());
    if pieces.len() == 1 {
        return copy_range(content, 0, content.len());
    }
    let ghost ps = page_pieces(content@);
    let ghost outs = views(outputs@);
    let n = pieces.len();
    let m = outputs.len();
    let mut body: Vec<u8> = Vec::new();
    let mut i: usize = 0;
    let mut j: usize = 0;
    assert(ps.skip(0) =~= ps);
    assert(outs.skip(0) =~= outs);
    while i < n
        invariant
            n == pieces@.len(),
            n == ps.len(),
            n != 1,
            ps == page_pieces(content@),
            outs == views(outputs@),
            m == outputs@.len(),
            forall|k: int| 0 <= k < n ==> #[trigger] pieces@[k]@ == ps[k],
            forall|k: int| 0 <= k < n ==> #[trigger] piece_ok(ps[k]),
            i <= n,
            j <= outs.len(),
            j + commands_of(ps.skip(i as int)).len() == outs.len(),
            body@ + render_pieces(ps.skip(i as int), outs.skip(j as int)) == render_pieces(ps, outs),
        decreases n - i,
    {
        let ghost before = body@;
        assert(ps.skip(i as int).drop_first() =~= ps.skip(i + 1));
        assert(ps.skip(i as int)[0] == ps[i as int]);
        assert(piece_ok(ps[i as int]));
        match piece_directive(pieces[i].as_slice()) {
            Some(d) => {
                if directive_is_exec(d.as_slice()) {
                    assert(j < outs.len());
                    assert(outs.skip(j as int).drop_first() =~= outs.skip(j + 1));
                    assert(outs.skip(j as int)[0] == outputs@[j as int]@);
                    append_bytes(&mut body, outputs[j].as_slice());
                    j = j + 1;
                    assert(before + (outs.skip(j - 1)[0] + render_pieces(ps.skip(i + 1), outs.skip(j as int)))
                        =~= body@ + render_pieces(ps.skip(i + 1), outs.skip(j as int)));
                }
            },
            None => {
                append_bytes(&mut body, pieces[i].as_slice());
                assert(before + (ps[i as int] + render_pieces(ps.skip(i + 1), outs.skip(j as int)))
                    =~= body@ + render_pieces(ps.skip(i + 1), outs.skip(j as int)));
            },
        }
        i = i + 1;
    }
    assert(ps.skip(n as int) =~= Seq::<Seq<u8>>::empty());
    assert(body@ + Seq::<u8>::empty() =~= body@);
    body
}


/// How many of the first `i` pieces run a command.
pub open spec fn commands_before(ps: Seq<Seq<u8>>, i: int) -> nat
    decreases i,
{
    if i <= 0 || i > ps.len() {
        0
    } else {
        commands_before(ps, i - 1) + if piece_kind(ps[i - 1]) is Command {
            1nat
        } else {
            0nat
        }
    }
}

/// What the piece at `i` puts into the page: its text; for an exec
/// directive, the output of the command it runs, the outputs being used one
/// after the other in the order of the directives; nothing otherwise.
pub open spec fn piece_output(ps: Seq<Seq<u8>>, outs: Seq<Seq<u8>>, i: int) -> Seq<u8> {
    match piece_kind(ps[i]) {
        PieceSpec::Text(t) => t,
        PieceSpec::Command(_) => outs[commands_before(ps, i) as int],
        PieceSpec::Skipped => seq![],
    }
}

/// Counting the commands of the pieces after the first.
proof fn lemma_commands_before_shift(ps: Seq<Seq<u8>>, i: int)
    requires
        0 <= i < ps.len(),
    ensures
        commands_before(ps, i + 1) == commands_before(ps.drop_first(), i) + if piece_kind(ps[0]) is Command {
            1nat
        } else {
            0nat
        },
    decreases i,
{
    let rest = ps.drop_first();
    if i > 0 {
        lemma_commands_before_shift(ps, i - 1);
        assert(rest[i - 1] == ps[i]);
        assert(commands_before(rest, i) == commands_before(rest, i - 1) + if piece_kind(rest[i - 1]) is Command {
            1nat
        } else {
            0nat
        });
    } else {
        assert(commands_before(ps, 0) == 0);
        assert(commands_before(rest, 0) == 0);
    }
}

/// The count of commands never falls as more pieces are counted, and rises
/// past each exec directive.
proof fn lemma_commands_before_grows(ps: Seq<Seq<u8>>, i: int, j: int)
    requires
        0 <= i < j <= ps.len(),
    ensures
        commands_before(ps, i) + (if piece_kind(ps[i]) is Command { 1nat } else { 0nat })
            <= commands_before(ps, j),
    decreases j - i,
{
    if j > i + 1 {
        lemma_commands_before_grows(ps, i, j - 1);
    }
}

/// A page's pieces render to what each piece puts in, in order: its text,
/// or for the k-th exec directive the k-th output, so that each output is
/// used exactly once; there are as many commands as exec directives.
pub proof fn law_render_outputs_in_order(ps: Seq<Seq<u8>>, outs: Seq<Seq<u8>>)
    requires
        outs.len() == commands_before(ps, ps.len() as int),
    ensures
        commands_of(ps).len() == commands_before(ps, ps.len() as int),
        render_pieces(ps, outs) == Seq::new(ps.len(), |i: int| piece_output(ps, outs, i)).flatten(),
    decreases ps.len(),
{
    let n = ps.len() as int;
    let whole = Seq::new(ps.len(), |i: int| piece_output(ps, outs, i));
    if n == 0 {
        assert(whole =~= Seq::<Seq<u8>>::empty());
    } else {
        let rest = ps.drop_first();
        let is_cmd = piece_kind(ps[0]) is Command;
        let outs2 = if is_cmd { outs.drop_first() } else { outs };
        lemma_commands_before_shift(ps, n - 1);
        assert(commands_before(ps, 0) == 0);
        lemma_commands_before_grows(ps, 0, n);
        law_render_outputs_in_order(rest, outs2);
        let tail = Seq::new(rest.len(), |i: int| piece_output(rest, outs2, i));
        assert forall|i: int| 0 <= i < rest.len() implies #[trigger] whole.drop_first()[i] == tail[i] by {
            lemma_commands_before_shift(ps, i);
            assert(rest[i] == ps[i + 1]);
            if piece_kind(ps[i + 1]) is Command {
                lemma_commands_before_grows(ps, i + 1, n);
                if is_cmd {
                    assert(outs2[commands_before(rest, i) as int] == outs[commands_before(ps, i + 1) as int]);
                }
            }
        }
        assert(whole.drop_first() =~= tail);
        assert(whole.flatten() == whole[0] + whole.drop_first().flatten());
        assert(whole[0] == piece_output(ps, outs, 0));
    }
}

/// A page holding "<!--" renders to what each of its pieces puts in, in
/// order, the k-th exec directive giving way to the k-th output.
pub proof fn law_page_outputs_in_order(content: Seq<u8>, outs: Seq<Seq<u8>>)
    requires
        page_pieces(content).len() != 1,
        outs.len() == page_commands(content).len(),
    ensures
        page_body(content, outs) == Seq::new(
            page_pieces(content).len(),
            |i: int| piece_output(page_pieces(content), outs, i),
        ).flatten(),
{
    let ps = page_pieces(content);
    assert(commands_of(ps).len() == commands_before(ps, ps.len() as int)) by {
        lemma_commands_count(ps);
    }
    law_render_outputs_in_order(ps, outs);
}

/// There are as many commands as exec directives.
proof fn lemma_commands_count(ps: Seq<Seq<u8>>)
    ensures
        commands_of(ps).len() == commands_before(ps, ps.len() as int),
    decreases ps.len(),
{
    if ps.len() > 0 {
        lemma_commands_count(ps.drop_first());
        lemma_commands_before_shift(ps, ps.len() - 1);
    }
}

/// A dynamic page that holds no "<!--" runs no command and is sent exactly
/// as it is, whatever follows in it.
pub proof fn law_plain_page_unchanged(content: Seq<u8>, outs: Seq<Seq<u8>>)
    requires
        forall|i: int| !occurs_at(content, text(COMMENT_OPEN), i),
    ensures
        page_body(content, outs) == content,
        page_commands(content) == Seq::<Seq<u8>>::empty(),
{
    lemma_first_match(content, text(COMMENT_OPEN), 0);
    assert(first_match(content, text(COMMENT_OPEN), 0) is None);
    assert(content.subrange(0, content.len() as int) =~= content);
    assert(page_pieces(content) == seq![content]);
}

impl WebServer {
    /// The answer to a request for the counter page: the compressed-HTML
    /// headers, then the counter page showing `count`, compressed.
    pub fn respond_with_counter_page(count: usize) -> (r: Vec<u8>)
        ensures
            r@ == counter_response(count as nat),
    {
        let page = counter_page_html(count);
        let body = deflate_bytes(page.as_slice());
        let mut r: Vec<u8> = Vec::new();
        append_bytes(&mut r, HTTP_OK_DEFLATE.as_bytes());
        append_bytes(&mut r, body.as_slice());
        r
    }

    /// The answer to a request for a missing file or a directory: the
    /// "not found" status line, then "Cannot open: " and the path.
    pub fn respond_with_error_page(path: &[u8]) -> (r: Vec<u8>)
        ensures
            r@ == error_response(path@),
    {
        let mut r: Vec<u8> = Vec::new();
        append_bytes(&mut r, HTTP_BAD.as_bytes());
        append_bytes(&mut r, ERROR_PREFIX.as_bytes());
        append_bytes(&mut r, path);
        r
    }

    /// The answer to a request for a readable dynamic page, given the
    /// outputs of its commands in order: the compressed-HTML headers, then
    /// the rendered page, compressed.
    pub fn respond_with_dynamic_page(content: &[u8], outputs: &Vec<Vec<u8>>) -> (r: Vec<u8>)
        requires
            page_accepted(content@),
            outputs@.len() == page_commands(content@).len(),
        ensures
            r@ == dynamic_response(content@, views(outputs@)),
    {
        let page = render_dynamic_page(content, outputs);
        let body = deflate_bytes(page.as_slice());
        let mut r: Vec<u8> = Vec::new();
        append_bytes(&mut r, HTTP_OK_DEFLATE.as_bytes());
        append_bytes(&mut r, body.as_slice());
        r
    }
}

} // verus!
