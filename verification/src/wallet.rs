//! What the wallet server is set up with: the settings of its configuration file, overridden by
//! the arguments of the command line.
use vstd::prelude::*;
use vstd::string::StrSliceExecFns;

verus! {

/// Whether a character is a decimal digit.
pub open spec fn is_digit(c: char) -> bool {
    '0' <= c <= '9'
}

/// The decimal digit that stands for a number below ten.
pub open spec fn digit(n: nat) -> char {
    ('0' as nat + n) as char
}

/// The number that decimal digits stand for.
pub open spec fn number(digits: Seq<char>) -> nat
    decreases digits.len(),
{
    if digits.len() == 0 {
        0
    } else {
        number(digits.drop_last()) * 10 + (digits.last() as nat - '0' as nat) as nat
    }
}

/// A number, written in decimal digits without leading zeros.
pub open spec fn decimal(n: nat) -> Seq<char>
    decreases n,
{
    if n < 10 {
        seq![digit(n)]
    } else {
        decimal(n / 10).push(digit(n % 10))
    }
}

/// The digits of a text that may start with a plus sign.
pub open spec fn unsigned_part(text: Seq<char>) -> Seq<char> {
    if text.len() > 0 && text[0] == '+' {
        text.skip(1)
    } else {
        text
    }
}

/// The port that a text names, if it names one: decimal digits, at least one of them, which may
/// follow a plus sign, and stand for a number that fits.
pub open spec fn port_of(text: Seq<char>) -> Option<u32> {
    let digits = unsigned_part(text);
    if digits.len() > 0 && (forall|i: int| 0 <= i < digits.len() ==> is_digit(#[trigger] digits[i]))
        && number(digits) <= u32::MAX {
        Some(number(digits) as u32)
    } else {
        None
    }
}

proof fn lemma_number_grows(digits: Seq<char>, n: int)
    requires
        0 <= n <= digits.len(),
        forall|i: int| 0 <= i < digits.len() ==> is_digit(#[trigger] digits[i]),
    ensures
        number(digits.take(n)) <= number(digits),
    decreases digits.len(),
{
    if n == digits.len() {
        assert(digits.take(n) =~= digits);
    } else {
        let front = digits.drop_last();
        lemma_number_grows(front, n);
        assert(front.take(n) =~= digits.take(n));
        assert(is_digit(digits[digits.len() - 1]));
    }
}

/// Reads a port.
pub fn parse_port(text: &str) -> (r: Option<u32>)
    ensures
        r == port_of(text@),
{
    let len: usize = text.unicode_len();
    let start: usize = if len > 0 && text.get_char(0) == '+' {
        1
    } else {
        0
    };
    let ghost digits = unsigned_part(text@);
    assert(digits =~= text@.skip(start as int));
    if start == len {
        return None;
    }
    let mut value: u32 = 0;
    let mut i: usize = start;
    assert(digits.take(0) =~= Seq::empty());
    while i < len
        invariant
            start <= i <= len,
            len == text@.len(),
            digits == text@.skip(start as int),
            digits == unsigned_part(text@),
            start < len,
            value == number(digits.take(i - start)),
            forall|j: int| 0 <= j < i - start ==> is_digit(#[trigger] digits[j]),
        decreases len - i,
    {
        let c: char = text.get_char(i);
        let ghost k = i - start;
        assert(digits[k] == c);
        if c < '0' || '9' < c {
            assert(!is_digit(digits[k]));
            return None;
        }
        let d: u32 = c as u32 - '0' as u32;
        proof {
            assert(digits.take(k + 1).drop_last() =~= digits.take(k));
            assert(digits.take(k + 1).last() == c);
            assert(number(digits.take(k + 1)) == value * 10 + d);
            if forall|j: int| 0 <= j < digits.len() ==> is_digit(#[trigger] digits[j]) {
                lemma_number_grows(digits, k + 1);
            }
        }
        if value > (u32::MAX - d) / 10 {
            return None;
        }
        value = value * 10 + d;
        i += 1;
    }
    assert(digits.take(len - start) =~= digits);
    Some(value)
}

/// Writes a number below ten.
fn digit_str(n: u32) -> (r: &'static str)
    requires
        n < 10,
    ensures
        r@ == seq![digit(n as nat)],
{
    proof {
        reveal_strlit("0");
        reveal_strlit("1");
        reveal_strlit("2");
        reveal_strlit("3");
        reveal_strlit("4");
        reveal_strlit("5");
        reveal_strlit("6");
        reveal_strlit("7");
        reveal_strlit("8");
        reveal_strlit("9");
    }
    let r: &'static str = match n {
        0 => "0",
        1 => "1",
        2 => "2",
        3 => "3",
        4 => "4",
        5 => "5",
        6 => "6",
        7 => "7",
        8 => "8",
        _ => "9",
    };
    assert(r@ =~= seq![digit(n as nat)]);
    r
}

/// Writes a number in decimal digits.
fn append_decimal(text: String, n: u32) -> (r: String)
    ensures
        r@ == text@ + decimal(n as nat),
    decreases n,
{
    if n < 10 {
        text.concat(digit_str(n))
    } else {
        let front: String = append_decimal(text, n / 10);
        let r: String = front.concat(digit_str(n % 10));
        assert(r@ =~= text@ + decimal(n as nat));
        r
    }
}

/// The address of a host and a port.
pub fn socket_address(host: &str, port: u32) -> (r: String)
    ensures
        r@ == host@ + seq![':'] + decimal(port as nat),
{
    proof {
        reveal_strlit(":");
    }
    let r: String = String::from_str(host).concat(":");
    assert(r@ =~= host@ + seq![':']);
    append_decimal(r, port)
}

/// What the wallet server is set up with, as far as it is known.
#[derive(Debug)]
pub struct Settings {
    /// The port that the peer-to-peer stack listens on.
    pub control_port: Option<u32>,
    /// The port that the server listens on.
    pub grpc_port: Option<u32>,
    /// The secret key of the node, in hexadecimal digits.
    pub secret_key: Option<String>,
    /// Where the database files of the node are stored.
    pub data_path: Option<String>,
}

/// What the command line says of the settings, as it was written.
#[derive(Debug)]
pub struct Arguments {
    pub control_port: Option<String>,
    pub grpc_port: Option<String>,
    pub secret_key: Option<String>,
    pub data_path: Option<String>,
}

/// Settings of which nothing is missing.
#[derive(Debug)]
pub struct CompleteSettings {
    pub control_port: u32,
    pub grpc_port: u32,
    pub secret_key: String,
    pub data_path: String,
}

/// A setting, once the command line was heard: what the command line says, if it says anything.
pub open spec fn overridden<T>(setting: Option<T>, argument: Option<T>) -> Option<T> {
    match argument {
        Some(value) => Some(value),
        None => setting,
    }
}

/// The port that an argument names. One that does not name a port says nothing.
pub open spec fn port_argument(argument: Option<String>) -> Option<u32> {
    match argument {
        Some(text) => port_of(text@),
        None => None,
    }
}

/// The settings, once the command line was heard.
pub open spec fn with_arguments(settings: Settings, arguments: Arguments) -> Settings {
    Settings {
        control_port: overridden(settings.control_port, port_argument(arguments.control_port)),
        grpc_port: overridden(settings.grpc_port, port_argument(arguments.grpc_port)),
        secret_key: overridden(settings.secret_key, arguments.secret_key),
        data_path: overridden(settings.data_path, arguments.data_path),
    }
}

/// Whether nothing is missing.
pub open spec fn is_complete(settings: Settings) -> bool {
    settings.control_port is Some && settings.grpc_port is Some && settings.secret_key is Some
        && settings.data_path is Some
}

impl Default for Settings {
    fn default() -> (r: Settings)
        ensures
            r.control_port is None && r.grpc_port is None && r.secret_key is None && r.data_path
                is None,
    {
        Settings { control_port: None, grpc_port: None, secret_key: None, data_path: None }
    }
}

fn override_port(setting: Option<u32>, argument: &Option<String>) -> (r: Option<u32>)
    ensures
        r == overridden(setting, port_argument(*argument)),
{
    match argument {
        Some(text) => match parse_port(text.as_str()) {
            Some(port) => Some(port),
            None => setting,
        },
        None => setting,
    }
}

fn override_text(setting: Option<String>, argument: Option<String>) -> (r: Option<String>)
    ensures
        r == overridden(setting, argument),
{
    match argument {
        Some(text) => Some(text),
        None => setting,
    }
}

impl Settings {
    /// Lets the command line override the settings.
    pub fn override_with(self, arguments: Arguments) -> (r: Settings)
        ensures
            r == with_arguments(self, arguments),
    {
        Settings {
            control_port: override_port(self.control_port, &arguments.control_port),
            grpc_port: override_port(self.grpc_port, &arguments.grpc_port),
            secret_key: override_text(self.secret_key, arguments.secret_key),
            data_path: override_text(self.data_path, arguments.data_path),
        }
    }

    /// The settings, if nothing is missing.
    pub fn complete(self) -> (r: Option<CompleteSettings>)
        ensures
            r is Some <==> is_complete(self),
            r matches Some(settings) ==> {
                &&& Some(settings.control_port) == self.control_port
                &&& Some(settings.grpc_port) == self.grpc_port
                &&& Some(settings.secret_key) == self.secret_key
                &&& Some(settings.data_path) == self.data_path
            },
    {
        match (self.control_port, self.grpc_port, self.secret_key, self.data_path) {
            (Some(control_port), Some(grpc_port), Some(secret_key), Some(data_path)) => Some(
                CompleteSettings { control_port, grpc_port, secret_key, data_path },
            ),
            _ => None,
        }
    }
}

impl CompleteSettings {
    /// The address that the peer-to-peer stack listens on: all addresses of the host.
    pub fn listener_address(&self) -> (r: String)
        ensures
            r@ == "0.0.0.0"@ + seq![':'] + decimal(self.control_port as nat),
    {
        socket_address("0.0.0.0", self.control_port)
    }

    /// The address at which others reach the peer-to-peer stack, given that of the host.
    pub fn public_address(&self, ip: &str) -> (r: String)
        ensures
            r@ == ip@ + seq![':'] + decimal(self.control_port as nat),
    {
        socket_address(ip, self.control_port)
    }
}

/// With all four arguments given, nothing is missing, and the configuration file does not matter.
pub proof fn law_arguments_win(settings: Settings, other: Settings, arguments: Arguments)
    requires
        port_argument(arguments.control_port) is Some,
        port_argument(arguments.grpc_port) is Some,
        arguments.secret_key is Some,
        arguments.data_path is Some,
    ensures
        with_arguments(settings, arguments) == with_arguments(other, arguments),
        is_complete(with_arguments(settings, arguments)),
{
}

/// Arguments never take a setting away, and where the command line says nothing of a setting, the
/// configuration file decides.
pub proof fn law_arguments_only_add(settings: Settings, arguments: Arguments)
    ensures
        is_complete(settings) ==> is_complete(with_arguments(settings, arguments)),
        port_argument(arguments.control_port) is None ==> with_arguments(
            settings,
            arguments,
        ).control_port == settings.control_port,
        port_argument(arguments.grpc_port) is None ==> with_arguments(settings, arguments).grpc_port
            == settings.grpc_port,
        arguments.secret_key is None ==> with_arguments(settings, arguments).secret_key
            == settings.secret_key,
        arguments.data_path is None ==> with_arguments(settings, arguments).data_path
            == settings.data_path,
{
}

/// Giving the same arguments twice is the same as giving them once.
pub proof fn law_arguments_idempotent(settings: Settings, arguments: Arguments)
    ensures
        with_arguments(with_arguments(settings, arguments), arguments) == with_arguments(
            settings,
            arguments,
        ),
{
}

/// A port that is written out is read back.
pub proof fn law_port_round_trip(port: u32)
    ensures
        port_of(decimal(port as nat)) == Some(port),
{
    lemma_decimal(port as nat);
    let digits = decimal(port as nat);
    assert(is_digit(digits[0]));
}

proof fn lemma_decimal(n: nat)
    ensures
        decimal(n).len() > 0,
        forall|i: int| 0 <= i < decimal(n).len() ==> is_digit(#[trigger] decimal(n)[i]),
        number(decimal(n)) == n,
    decreases n,
{
    if n < 10 {
        let digits = seq![digit(n)];
        assert(digits.drop_last() =~= Seq::empty());
        assert(number(digits.drop_last()) == 0);
    } else {
        lemma_decimal(n / 10);
        assert(decimal(n).drop_last() =~= decimal(n / 10));
    }
}

/// A setting that the command line names is the one it names; every other is that of the file.
pub proof fn law_each_setting(settings: Settings, arguments: Arguments)
    ensures
        ({
            let t = with_arguments(settings, arguments);
            &&& arguments.secret_key is Some ==> t.secret_key == arguments.secret_key
            &&& arguments.secret_key is None ==> t.secret_key == settings.secret_key
            &&& arguments.data_path is Some ==> t.data_path == arguments.data_path
            &&& arguments.data_path is None ==> t.data_path == settings.data_path
            &&& arguments.control_port is Some && port_of(arguments.control_port->0@) is Some
                ==> t.control_port == port_of(arguments.control_port->0@)
            &&& arguments.control_port is None || port_of(arguments.control_port->0@) is None
                ==> t.control_port == settings.control_port
            &&& arguments.grpc_port is Some && port_of(arguments.grpc_port->0@) is Some
                ==> t.grpc_port == port_of(arguments.grpc_port->0@)
            &&& arguments.grpc_port is None || port_of(arguments.grpc_port->0@) is None
                ==> t.grpc_port == settings.grpc_port
        }),
{
}

/// Settings are complete exactly if each of the four is there.
pub proof fn law_complete(settings: Settings)
    ensures
        is_complete(settings) <==> !(settings.control_port is None || settings.grpc_port is None
            || settings.secret_key is None || settings.data_path is None),
{
}

/// How a port is read, from the left: without digits there is none; each digit that follows counts
/// ten times what came before and itself, as long as the number fits; and once something else
/// stands there, or the number does not fit, there is none. A single plus sign may come first.
pub proof fn law_port_digit_by_digit(text: Seq<char>, c: char)
    ensures
        port_of(Seq::empty()) is None,
        port_of(seq!['+']) is None,
        !('0' <= c <= '9') ==> port_of(text.push(c)) is None,
        text.len() == 0 && '0' <= c <= '9' ==> port_of(text.push(c)) == Some(
            (c as u32 - 48) as u32,
        ),
        text == seq!['+'] && '0' <= c <= '9' ==> port_of(text.push(c)) == Some(
            (c as u32 - 48) as u32,
        ),
        port_of(text) is Some && '0' <= c <= '9' && port_of(text)->0 * 10 + (c as u32 - 48)
            <= 0xffff_ffff ==> port_of(text.push(c)) == Some(
            (port_of(text)->0 * 10 + (c as u32 - 48)) as u32,
        ),
        port_of(text) is Some && '0' <= c <= '9' && port_of(text)->0 * 10 + (c as u32 - 48)
            > 0xffff_ffff ==> port_of(text.push(c)) is None,
        port_of(text) is None && text.len() > 0 && text != seq!['+'] ==> port_of(text.push(c))
            is None,
{
    let more = text.push(c);
    let old_digits = unsigned_part(text);
    let digits = unsigned_part(more);
    assert(unsigned_part(seq!['+']) =~= Seq::empty());
    if text.len() == 0 {
        assert(more =~= seq![c]);
        if c == '+' {
            assert(digits =~= Seq::empty());
        } else {
            assert(digits[0] == c);
            assert(digits.drop_last() =~= Seq::empty());
            assert(number(digits.drop_last()) == 0);
            if !is_digit(c) {
                assert(!is_digit(digits[0]));
            }
        }
    } else {
        assert(digits =~= old_digits.push(c));
        assert(digits.drop_last() =~= old_digits);
        assert(digits.last() == c);
        assert(digits[old_digits.len() as int] == c);
        assert(number(digits) == number(old_digits) * 10 + (c as nat - '0' as nat) as nat);
        if !is_digit(c) {
            assert(!is_digit(digits[old_digits.len() as int]));
        }
        if text == seq!['+'] {
            assert(old_digits =~= Seq::empty());
            assert(number(old_digits) == 0);
        } else {
            assert(old_digits.len() > 0) by {
                if old_digits.len() == 0 {
                    assert(text =~= seq!['+']);
                }
            }
            if forall|i: int| 0 <= i < digits.len() ==> is_digit(#[trigger] digits[i]) {
                assert forall|i: int| 0 <= i < old_digits.len() implies is_digit(
                    #[trigger] old_digits[i],
                ) by {
                    assert(digits[i] == old_digits[i]);
                }
            }
            if forall|i: int| 0 <= i < old_digits.len() ==> is_digit(#[trigger] old_digits[i]) {
                assert forall|i: int| 0 <= i < digits.len() && is_digit(c) implies is_digit(
                    #[trigger] digits[i],
                ) by {
                    if i < old_digits.len() {
                        assert(digits[i] == old_digits[i]);
                    }
                }
            }
        }
    }
}

/// How a number is written: below ten it is one digit; otherwise its last digit follows what is
/// written for the tens.
pub proof fn law_decimal_digit_by_digit(n: nat)
    ensures
        n < 10 ==> decimal(n).len() == 1 && decimal(n)[0] as nat == 48 + n,
        n >= 10 ==> decimal(n).len() == decimal(n / 10).len() + 1,
        n >= 10 ==> decimal(n).drop_last() == decimal(n / 10),
        n >= 10 ==> decimal(n).last() as nat == 48 + n % 10,
{
    if n >= 10 {
        assert(decimal(n).drop_last() =~= decimal(n / 10));
    }
}

} // verus!
