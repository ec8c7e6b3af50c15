//! The commands of the operator's console.

use vstd::prelude::*;
use vstd::string::*;

use crate::text::{cut, decimal_text, pieces, same_text};
use crate::websocket::{attached, Attached, WebsocketConnection};

verus! {

/// What the operator asks for.
#[derive(Debug)]
pub enum Command {
    /// Show so many connections.
    Print(usize),
    /// Show the locations.
    Proxies,
    /// Move a distribution to the best location.
    Move(String),
    /// A move without the name of a distribution.
    MoveWithoutName,
    /// Close the connection whose client has a name that begins like this.
    Close(String),
    /// A close without a name, or with too many.
    CloseWithoutName,
    /// A word about locations that is no command.
    ProxyNothing,
    /// Explain the commands.
    Help,
    /// No command at all.
    Unknown,
}

/// The mathematical content of a `Command`.
pub enum CommandView {
    Print(nat),
    Proxies,
    Move(Seq<char>),
    MoveWithoutName,
    Close(Seq<char>),
    CloseWithoutName,
    ProxyNothing,
    Help,
    Unknown,
}

impl View for Command {
    type V = CommandView;

    open spec fn view(&self) -> CommandView {
        match self {
            Command::Print(n) => CommandView::Print(*n as nat),
            Command::Proxies => CommandView::Proxies,
            Command::Move(name) => CommandView::Move(name@),
            Command::MoveWithoutName => CommandView::MoveWithoutName,
            Command::Close(name) => CommandView::Close(name@),
            Command::CloseWithoutName => CommandView::CloseWithoutName,
            Command::ProxyNothing => CommandView::ProxyNothing,
            Command::Help => CommandView::Help,
            Command::Unknown => CommandView::Unknown,
        }
    }
}

/// How many connections are shown where no number is given.
pub const SHOWN_BY_DEFAULT: usize = 10;

/// Whether a text is made of decimal digits, at least one.
pub open spec fn is_decimal(s: Seq<char>) -> bool {
    s.len() > 0 && forall|i: int| 0 <= i < s.len() ==> '0' <= #[trigger] s[i] <= '9'
}

/// The number that decimal digits stand for.
pub open spec fn decimal_value(s: Seq<char>) -> nat
    decreases s.len(),
{
    if s.len() == 0 {
        0
    } else {
        10 * decimal_value(s.drop_last()) + (s.last() as u32 - 48) as nat
    }
}

/// The digits of a number, behind the plus sign that it may have.
pub open spec fn unsigned_part(s: Seq<char>) -> Seq<char> {
    if s.len() > 0 && s[0] == '+' {
        s.drop_first()
    } else {
        s
    }
}

/// The number that a text stands for, if it is one and the machine can hold it.
pub open spec fn number_of(s: Seq<char>) -> Option<nat> {
    if is_decimal(unsigned_part(s)) && decimal_value(unsigned_part(s)) <= usize::MAX {
        Some(decimal_value(unsigned_part(s)))
    } else {
        None
    }
}

/// What the words of a line ask for.
pub open spec fn command_of(words: Seq<Seq<char>>) -> CommandView {
    let first = words[0];
    if first == "p"@ {
        CommandView::Print(
            if words.len() > 1 {
                match number_of(words[1]) {
                    Some(n) => n,
                    None => SHOWN_BY_DEFAULT as nat,
                }
            } else {
                SHOWN_BY_DEFAULT as nat
            },
        )
    } else if first == "proxies"@ {
        CommandView::Proxies
    } else if first == "proxy"@ {
        if words.len() > 1 && words[1] == "move"@ {
            if words.len() > 2 {
                CommandView::Move(words[2])
            } else {
                CommandView::MoveWithoutName
            }
        } else {
            CommandView::ProxyNothing
        }
    } else if first == "close"@ {
        if words.len() == 2 {
            CommandView::Close(words[1])
        } else {
            CommandView::CloseWithoutName
        }
    } else if first == "help"@ {
        CommandView::Help
    } else {
        CommandView::Unknown
    }
}

proof fn lemma_decimal_prefix(s: Seq<char>, k: int)
    requires
        0 <= k <= s.len(),
        is_decimal(s),
    ensures
        decimal_value(s.take(k)) <= decimal_value(s),
    decreases s.len() - k,
{
    if k < s.len() {
        lemma_decimal_prefix(s, k + 1);
        assert(s.take(k + 1).drop_last() =~= s.take(k));
        assert(s.take(k + 1).last() == s[k]);
        assert('0' <= s[k] <= '9');
    } else {
        assert(s.take(k) =~= s);
    }
}

/// Reads a number: decimal digits, with or without a plus sign before them.
pub fn parse_number(s: &str) -> (r: Option<usize>)
    ensures
        match r {
            Some(n) => number_of(s@) == Some(n as nat),
            None => number_of(s@) is None,
        },
{
    let n: usize = s.unicode_len();
    let mut start: usize = 0;
    if n > 0 && s.get_char(0) == '+' {
        start = 1;
    }
    let ghost digits = unsigned_part(s@);
    assert(digits =~= s@.skip(start as int));
    if start == n {
        return None;
    }
    let mut value: usize = 0;
    let mut i: usize = start;
    assert(digits.take(0) =~= Seq::empty());
    while i < n
        invariant
            n == s@.len(),
            start <= i <= n,
            digits == s@.skip(start as int),
            digits == unsigned_part(s@),
            digits.len() > 0,
            forall|j: int| 0 <= j < i - start ==> '0' <= #[trigger] digits[j] <= '9',
            value == decimal_value(digits.take(i - start)),
        decreases n - i,
    {
        let c: char = s.get_char(i);
        let ghost k = i - start;
        assert(digits[k] == c);
        if c < '0' || '9' < c {
            return None;
        }
        let v: usize = c as usize - 48;
        proof {
            assert(digits.take(k + 1).drop_last() =~= digits.take(k));
            assert(digits.take(k + 1).last() == c);
            if is_decimal(digits) {
                lemma_decimal_prefix(digits, k + 1);
            }
        }
        if value > (usize::MAX - v) / 10 {
            return None;
        }
        value = 10 * value + v;
        i = i + 1;
    }
    assert(digits.take(i - start) =~= digits);
    Some(value)
}

/// Parts a text at every place of an ASCII separator.
pub fn split<'a>(s: &'a str, sep: u8) -> (r: Vec<&'a str>)
    requires
        sep < 128,
    ensures
        r@.len() > 0,
        r@.map_values(|piece: &str| piece@) == pieces(s@, sep as char),
{
    let ghost c = sep as char;
    let ghost shown = |piece: &str| piece@;
    let mut r: Vec<&'a str> = Vec::new();
    let mut text: &'a str = s;
    let mut more: bool = true;
    assert(r@.map_values(shown) + pieces(s@, c) =~= pieces(s@, c));
    while more
        invariant
            sep < 128,
            c == sep as char,
            shown == (|piece: &str| piece@),
            more ==> r@.map_values(shown) + pieces(text@, c) == pieces(s@, c),
            !more ==> r@.len() > 0 && r@.map_values(shown) == pieces(s@, c),
        decreases
                if more {
                    text@.len() + 1
                } else {
                    0
                },
    {
        let (piece, next) = cut(text, sep);
        let ghost so_far = r@.map_values(shown);
        proof {
            if text@.contains(c) {
                crate::text::lemma_before_shorter(text@, c);
            } else {
                crate::text::lemma_no_cut(text@, c);
            }
        }
        r.push(piece);
        assert(r@.map_values(shown) =~= so_far.push(piece@));
        match next {
            Some(rest) => {
                assert(pieces(text@, c) =~= seq![piece@] + pieces(rest@, c));
                assert(so_far + (seq![piece@] + pieces(rest@, c)) =~= so_far.push(piece@) + pieces(
                    rest@,
                    c,
                ));
                text = rest;
            },
            None => {
                assert(pieces(text@, c) =~= seq![piece@]);
                assert(so_far + seq![piece@] =~= so_far.push(piece@));
                more = false;
            },
        }
    }
    r
}

/// Reads a line of the console.
pub fn parse_command(line: &str) -> (r: Command)
    ensures
        r@ == command_of(pieces(line@, ' ')),
{
    let words: Vec<&str> = split(line, 32);
    let ghost shown = |piece: &str| piece@;
    assert forall|i: int| 0 <= i < words@.len() implies #[trigger] words@[i]@ == pieces(
        line@,
        ' ',
    )[i] by {
        assert(words@.map_values(shown)[i] == words@[i]@);
    }
    let first: &str = words[0];
    if same_text(first, "p") {
        if words.len() > 1 {
            match parse_number(words[1]) {
                Some(n) => Command::Print(n),
                None => Command::Print(SHOWN_BY_DEFAULT),
            }
        } else {
            Command::Print(SHOWN_BY_DEFAULT)
        }
    } else if same_text(first, "proxies") {
        Command::Proxies
    } else if same_text(first, "proxy") {
        if words.len() > 1 && same_text(words[1], "move") {
            if words.len() > 2 {
                Command::Move(words[2].to_owned())
            } else {
                Command::MoveWithoutName
            }
        } else {
            Command::ProxyNothing
        }
    } else if same_text(first, "close") {
        if words.len() == 2 {
            Command::Close(words[1].to_owned())
        } else {
            Command::CloseWithoutName
        }
    } else if same_text(first, "help") {
        Command::Help
    } else {
        Command::Unknown
    }
}

/// Whether a text begins with another one.
fn begins_with(s: &str, prefix: &str) -> (r: bool)
    ensures
        r == prefix@.is_prefix_of(s@),
{
    let n: usize = prefix.unicode_len();
    if s.unicode_len() < n {
        return false;
    }
    let mut i: usize = 0;
    while i < n
        invariant
            n == prefix@.len(),
            n <= s@.len(),
            i <= n,
            forall|j: int| 0 <= j < i ==> s@[j] == prefix@[j],
        decreases n - i,
    {
        if s.get_char(i) != prefix.get_char(i) {
            assert(s@[i as int] == s@.subrange(0, n as int)[i as int]);
            return false;
        }
        i = i + 1;
    }
    assert(prefix@ =~= s@.subrange(0, n as int));
    true
}

/// Tells the clients whose name begins like the given text.
pub open spec fn named_like(prefix: Seq<char>) -> spec_fn(Attached) -> bool {
    |conn: Attached| prefix.is_prefix_of(conn.data.id)
}

/// The connections of the clients whose name begins like the given text, first
/// come first.
pub fn find_by_name<'a>(conns: &'a Vec<WebsocketConnection>, prefix: &str) -> (r: Vec<
    &'a WebsocketConnection,
>)
    ensures
        r@.map_values(|conn: &WebsocketConnection| conn@) == attached(conns@).filter(
            named_like(prefix@),
        ),
{
    let ghost all = attached(conns@);
    let ghost shown = |conn: &WebsocketConnection| conn@;
    let mut r: Vec<&'a WebsocketConnection> = Vec::new();
    let mut i: usize = 0;
    proof {
        reveal(Seq::filter);
        assert(all.take(0) =~= Seq::empty());
        assert(r@.map_values(shown) =~= all.take(0).filter(named_like(prefix@)));
    }
    while i < conns.len()
        invariant
            all == attached(conns@),
            shown == (|conn: &WebsocketConnection| conn@),
            i <= conns@.len(),
            r@.map_values(shown) == all.take(i as int).filter(named_like(prefix@)),
        decreases conns@.len() - i,
    {
        let ghost so_far = r@.map_values(shown);
        proof {
            reveal(Seq::filter);
            assert(all.take(i + 1).drop_last() =~= all.take(i as int));
            assert(all.take(i + 1).last() == all[i as int]);
            assert(all[i as int] == conns@[i as int]@);
        }
        if begins_with(conns[i].data.id.as_str(), prefix) {
            r.push(&conns[i]);
            assert(r@.map_values(shown) =~= so_far.push(all[i as int]));
        }
        i = i + 1;
    }
    assert(all.take(i as int) =~= all);
    r
}

/// How many of `len` connections are shown where up to `n` are asked for, and how
/// many more there are, if there are more.
pub fn listing(len: usize, n: usize) -> (r: (usize, Option<usize>))
    ensures
        r.0 == if len < n {
            len
        } else {
            n
        },
        r.1 == if len > n {
            Some((len - n) as usize)
        } else {
            None
        },
{
    if len > n {
        (n, Some(len - n))
    } else {
        (len, None)
    }
}

/// What comes of the wish to close a connection.
#[derive(Debug)]
pub enum CloseChoice {
    /// The name fits several clients; these are their names.
    Several(Vec<String>),
    /// The connection with this handle is to be closed.
    One(u64),
}

/// The names of clients, in the order of their connections.
pub open spec fn client_names(found: Seq<&WebsocketConnection>) -> Seq<Seq<char>> {
    found.map_values(|conn: &WebsocketConnection| conn@.data.id)
}

/// Decides which connection is closed of those that a name was found to fit: the
/// only one, or none if there are several.
pub fn close_choice(found: &Vec<&WebsocketConnection>) -> (r: CloseChoice)
    requires
        found@.len() > 0,
    ensures
        match r {
            CloseChoice::Several(names) => {
                &&& found@.len() > 1
                &&& names@.map_values(|name: String| name@) == client_names(found@)
            },
            CloseChoice::One(handle) => found@.len() == 1 && handle == found@[0].handle,
        },
{
    if found.len() == 1 {
        return CloseChoice::One(found[0].handle);
    }
    let mut names: Vec<String> = Vec::new();
    let mut i: usize = 0;
    while i < found.len()
        invariant
            i <= found@.len(),
            names@.len() == i,
            forall|j: int| 0 <= j < i ==> (#[trigger] names@[j])@ == found@[j]@.data.id,
        decreases found@.len() - i,
    {
        names.push(found[i].data.id.clone());
        i = i + 1;
    }
    assert(names@.map_values(|name: String| name@) =~= client_names(found@));
    CloseChoice::Several(names)
}

/// A number that was written out is read back.
pub proof fn law_numbers_read_back(n: nat)
    requires
        n <= usize::MAX,
    ensures
        number_of(decimal_text(n)) == Some(n),
{
    lemma_decimal_text(n);
    let s = decimal_text(n);
    assert('0' <= s[0] <= '9');
}

proof fn lemma_decimal_text(n: nat)
    ensures
        is_decimal(decimal_text(n)),
        decimal_value(decimal_text(n)) == n,
    decreases n,
{
    let s = decimal_text(n);
    if n < 10 {
        assert(s.drop_last() =~= Seq::empty());
        assert(decimal_value(s.drop_last()) == 0);
    } else {
        lemma_decimal_text(n / 10);
        assert(s.drop_last() =~= decimal_text(n / 10));
        assert forall|i: int| 0 <= i < s.len() implies '0' <= #[trigger] s[i] <= '9' by {
            if i < s.len() - 1 {
                assert(s[i] == decimal_text(n / 10)[i]);
            }
        }
    }
}

/// Which texts are numbers, and which: digits, each further one counting one where
/// those before it count ten times as much, with or without one plus sign, up to
/// what the machine can hold.
pub proof fn law_numbers(s: Seq<char>, c: char)
    ensures
        decimal_value(Seq::empty()) == 0,
        '0' <= c <= '9' ==> decimal_value(s.push(c)) == 10 * decimal_value(s) + (c as u32 - 48),
        is_decimal(s) <==> s.len() > 0 && forall|i: int|
            0 <= i < s.len() ==> '0' <= #[trigger] s[i] <= '9',
        is_decimal(s) && decimal_value(s) <= usize::MAX ==> number_of(s) == Some(decimal_value(s))
            && number_of(seq!['+'] + s) == Some(decimal_value(s)),
        is_decimal(s) && decimal_value(s) > usize::MAX ==> number_of(s) is None && number_of(
            seq!['+'] + s,
        ) is None,
        !is_decimal(s) ==> number_of(seq!['+'] + s) is None,
        !is_decimal(s) && !(s.len() > 0 && s[0] == '+') ==> number_of(s) is None,
{
    assert(s.push(c).drop_last() =~= s);
    assert((seq!['+'] + s).drop_first() =~= s);
    if is_decimal(s) {
        assert('0' <= s[0] <= '9');
    }
}

/// What the words of a line ask for, word by word.
pub proof fn law_commands(words: Seq<Seq<char>>)
    requires
        words.len() > 0,
    ensures
        words[0] == "p"@ && words.len() == 1 ==> command_of(words) == CommandView::Print(10),
        words[0] == "p"@ && words.len() > 1 ==> command_of(words) == CommandView::Print(
            match number_of(words[1]) {
                Some(n) => n,
                None => 10,
            },
        ),
        words[0] == "proxies"@ ==> command_of(words) == CommandView::Proxies,
        words[0] == "proxy"@ && words.len() > 2 && words[1] == "move"@ ==> command_of(words)
            == CommandView::Move(words[2]),
        words[0] == "proxy"@ && words.len() == 2 && words[1] == "move"@ ==> command_of(words)
            == CommandView::MoveWithoutName,
        words[0] == "proxy"@ && (words.len() == 1 || words[1] != "move"@) ==> command_of(words)
            == CommandView::ProxyNothing,
        words[0] == "close"@ && words.len() == 2 ==> command_of(words) == CommandView::Close(
            words[1],
        ),
        words[0] == "close"@ && words.len() != 2 ==> command_of(words)
            == CommandView::CloseWithoutName,
        words[0] == "help"@ ==> command_of(words) == CommandView::Help,
        !(words[0] == "p"@ || words[0] == "proxies"@ || words[0] == "proxy"@ || words[0]
            == "close"@ || words[0] == "help"@) ==> command_of(words) == CommandView::Unknown,
{
    reveal_strlit("p");
    reveal_strlit("proxies");
    reveal_strlit("proxy");
    reveal_strlit("close");
    reveal_strlit("help");
    let first = words[0];
    if first == "proxies"@ {
        assert(first.len() == 7);
    } else if first == "proxy"@ {
        assert(first.len() == 5 && first[0] == 'p');
    } else if first == "close"@ {
        assert(first.len() == 5 && first[0] == 'c');
    } else if first == "help"@ {
        assert(first.len() == 4);
    } else if first == "p"@ {
        assert(first.len() == 1);
    }
}

/// The names that a close is told of are those of all clients found, place by
/// place.
pub proof fn law_client_names(found: Seq<&WebsocketConnection>, i: int)
    requires
        0 <= i < found.len(),
    ensures
        client_names(found).len() == found.len(),
        client_names(found)[i] == found[i]@.data.id,
{
}

/// Finding clients by the start of their name keeps exactly the connections whose
/// name begins like it, in their order: the next connection is found behind those
/// found before it if its name does, and is left out if not.
pub proof fn law_named_like(conns: Seq<Attached>, conn: Attached, prefix: Seq<char>)
    ensures
        Seq::<Attached>::empty().filter(named_like(prefix)) == Seq::<Attached>::empty(),
        prefix.is_prefix_of(conn.data.id) ==> conns.push(conn).filter(named_like(prefix))
            == conns.filter(named_like(prefix)).push(conn),
        !prefix.is_prefix_of(conn.data.id) ==> conns.push(conn).filter(named_like(prefix))
            == conns.filter(named_like(prefix)),
{
    reveal(Seq::filter);
    assert(conns.push(conn).drop_last() =~= conns);
}

/// The content of a command is what it carries.
pub proof fn law_command_content(command: Command)
    ensures
        command matches Command::Print(n) ==> command@ == CommandView::Print(n as nat),
        command matches Command::Move(name) ==> command@ == CommandView::Move(name@),
        command matches Command::Close(name) ==> command@ == CommandView::Close(name@),
        command is Proxies <==> command@ is Proxies,
        command is MoveWithoutName <==> command@ is MoveWithoutName,
        command is CloseWithoutName <==> command@ is CloseWithoutName,
        command is ProxyNothing <==> command@ is ProxyNothing,
        command is Help <==> command@ is Help,
        command is Unknown <==> command@ is Unknown,
{
}

} // verus!
