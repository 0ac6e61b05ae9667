//! What the words of a command line ask for.
use vstd::prelude::*;
use vstd::string::*;

verus! {

/// A task of the program.
#[derive(Clone, Debug, Eq, PartialEq)]
pub enum Command {
    Compress { input: String, output: Option<String>, block_size: Option<usize> },
    Decompress { input: String, output: Option<String> },
    Benchmark { path: String, block_size: Option<usize> },
    BenchmarkGenerator { path: String, block_size: Option<usize> },
    BenchmarkGeneratorDebug { path: String, block_size: Option<usize> },
}

/// A task as mathematical values.
#[verifier::ext_equal]
pub enum Task {
    Compress { input: Seq<char>, output: Option<Seq<char>>, block_size: Option<usize> },
    Decompress { input: Seq<char>, output: Option<Seq<char>> },
    Benchmark { path: Seq<char>, block_size: Option<usize> },
    BenchmarkGenerator { path: Seq<char>, block_size: Option<usize> },
    BenchmarkGeneratorDebug { path: Seq<char>, block_size: Option<usize> },
}

/// The characters of a text that may be missing.
pub open spec fn optional_text(t: Option<String>) -> Option<Seq<char>> {
    match t {
        Some(s) => Some(s@),
        None => None,
    }
}

impl View for Command {
    type V = Task;

    open spec fn view(&self) -> Task {
        match self {
            Command::Compress { input, output, block_size } => Task::Compress {
                input: input@,
                output: optional_text(*output),
                block_size: *block_size,
            },
            Command::Decompress { input, output } => Task::Decompress {
                input: input@,
                output: optional_text(*output),
            },
            Command::Benchmark { path, block_size } => Task::Benchmark {
                path: path@,
                block_size: *block_size,
            },
            Command::BenchmarkGenerator { path, block_size } => Task::BenchmarkGenerator {
                path: path@,
                block_size: *block_size,
            },
            Command::BenchmarkGeneratorDebug { path, block_size } => Task::BenchmarkGeneratorDebug {
                path: path@,
                block_size: *block_size,
            },
        }
    }
}

/// The words of a command line as sequences of characters.
pub open spec fn texts(args: Seq<String>) -> Seq<Seq<char>> {
    args.map_values(|s: String| s@)
}

/// Why a text is not a number.
#[derive(Clone, Copy, Debug, Eq, PartialEq, Structural)]
pub enum NumberFault {
    Empty,
    InvalidDigit,
    TooLarge,
}

/// The value of a decimal digit.
pub open spec fn digit_value(c: char) -> Option<nat> {
    if '0' <= c <= '9' {
        Some((c as nat - '0' as nat) as nat)
    } else {
        None
    }
}

/// The number whose remaining digits start at `at`, where `value` was read
/// already.
pub open spec fn number_from(s: Seq<char>, at: int, value: nat) -> Result<usize, NumberFault>
    decreases s.len() - at,
{
    if at >= s.len() {
        Ok(value as usize)
    } else {
        match digit_value(s[at]) {
            None => Err(NumberFault::InvalidDigit),
            Some(d) => if 10 * value + d > usize::MAX {
                Err(NumberFault::TooLarge)
            } else {
                number_from(s, at + 1, 10 * value + d)
            },
        }
    }
}

/// The number that a text stands for: digits, with a plus sign in front or
/// without.
pub open spec fn number_of(s: Seq<char>) -> Result<usize, NumberFault> {
    if s.len() == 0 {
        Err(NumberFault::Empty)
    } else if s[0] == '+' {
        if s.len() == 1 {
            Err(NumberFault::InvalidDigit)
        } else {
            number_from(s, 1, 0)
        }
    } else {
        number_from(s, 0, 0)
    }
}

/// Reads a number.
pub fn parse_number(text: &str) -> (r: Result<usize, NumberFault>)
    ensures
        r == number_of(text@),
{
    let n: usize = text.unicode_len();
    if n == 0 {
        return Err(NumberFault::Empty);
    }
    let mut at: usize = 0;
    if text.get_char(0) == '+' {
        if n == 1 {
            return Err(NumberFault::InvalidDigit);
        }
        at = 1;
    }
    let mut value: usize = 0;
    while at < n
        invariant
            n == text@.len(),
            at <= n,
            number_of(text@) == number_from(text@, at as int, value as nat),
        decreases n - at,
    {
        let c: char = text.get_char(at);
        if c < '0' || c > '9' {
            return Err(NumberFault::InvalidDigit);
        }
        let d: usize = (c as u32 - '0' as u32) as usize;
        if value > usize::MAX / 10 || 10 * value > usize::MAX - d {
            return Err(NumberFault::TooLarge);
        }
        value = 10 * value + d;
        at = at + 1;
    }
    Ok(value)
}

/// A fault in words.
pub open spec fn fault_text(f: NumberFault) -> Seq<char> {
    match f {
        NumberFault::Empty => "cannot parse integer from empty string"@,
        NumberFault::InvalidDigit => "invalid digit found in string"@,
        NumberFault::TooLarge => "number too large to fit in target type"@,
    }
}

fn describe(f: NumberFault) -> (s: &'static str)
    ensures
        s@ == fault_text(f),
{
    match f {
        NumberFault::Empty => "cannot parse integer from empty string",
        NumberFault::InvalidDigit => "invalid digit found in string",
        NumberFault::TooLarge => "number too large to fit in target type",
    }
}

/// The block size that a text gives.
pub open spec fn block_size_of(text: Option<Seq<char>>) -> Result<Option<usize>, Seq<char>> {
    match text {
        None => Ok(None),
        Some(raw) => match number_of(raw) {
            Ok(n) => Ok(Some(n)),
            Err(f) => Err("invalid block size '"@ + raw + "': "@ + fault_text(f)),
        },
    }
}

/// Reads a block size that may be missing.
pub fn parse_optional_block_size(value: Option<&String>) -> (r: Result<Option<usize>, String>)
    ensures
        match r {
            Ok(size) => block_size_of(
                match value {
                    Some(s) => Some(s@),
                    None => None,
                },
            ) == Ok::<Option<usize>, Seq<char>>(size),
            Err(e) => block_size_of(
                match value {
                    Some(s) => Some(s@),
                    None => None,
                },
            ) == Err::<Option<usize>, Seq<char>>(e@),
        },
{
    match value {
        None => Ok(None),
        Some(raw) => match parse_number(raw.as_str()) {
            Ok(n) => Ok(Some(n)),
            Err(f) => Err(
                "invalid block size '".to_string().concat(raw.as_str()).concat("': ").concat(
                    describe(f),
                ),
            ),
        },
    }
}

/// The first number among the words from `at` on.
pub open spec fn first_number(args: Seq<Seq<char>>, at: int) -> Option<usize>
    decreases args.len() - at,
{
    if at >= args.len() {
        None
    } else {
        match number_of(args[at]) {
            Ok(n) => Some(n),
            Err(_) => first_number(args, at + 1),
        }
    }
}

fn find_number(args: &[String]) -> (r: Option<usize>)
    ensures
        r == first_number(texts(args@), 0),
{
    let n: usize = args.len();
    for i in 0..n
        invariant
            n == args@.len(),
            first_number(texts(args@), 0) == first_number(texts(args@), i as int),
    {
        match parse_number(args[i].as_str()) {
            Ok(v) => return Some(v),
            Err(_) => {},
        }
    }
    None
}

/// The output that was named: the fourth word, unless it is an option.
pub open spec fn named_output(args: Seq<Seq<char>>) -> Option<Seq<char>> {
    if args.len() > 3 && !(args[3].len() > 0 && args[3][0] == '-') {
        Some(args[3])
    } else {
        None
    }
}

fn take_output(args: &[String]) -> (r: Option<String>)
    ensures
        optional_text(r) == named_output(texts(args@)),
{
    if args.len() <= 3 {
        return None;
    }
    let text = args[3].as_str();
    if text.unicode_len() > 0 && text.get_char(0) == '-' {
        return None;
    }
    Some(args[3].clone())
}

/// How the program is used.
pub open spec fn usage_text() -> Seq<char> {
    "Usage:\n  pack compress <input> [output]              # compress file\n  pack decompress <input> [output]            # decompress file\n\n  Aliases: 'pack' = compress, 'unpack' = decompress\n\n  Output defaults:\n    compress:   <input>.pack  (e.g. data.bin -> data.bin.pack)\n    decompress: strip .pack   (e.g. data.bin.pack -> data.bin)\n\n  Options:\n    [block_size_bytes]  override automatic block size (power of 2, >= 64)\n\n  Diagnostics:\n  pack benchmark <directory> [block_size_bytes]\n  pack benchmark-generator <directory> [block_size_bytes]\n  pack benchmark-generator-debug <file> [block_size_bytes]"@
}

/// Tells how the program is used.
pub fn usage() -> (s: String)
    ensures
        s@ == usage_text(),
{
    "Usage:\n  pack compress <input> [output]              # compress file\n  pack decompress <input> [output]            # decompress file\n\n  Aliases: 'pack' = compress, 'unpack' = decompress\n\n  Output defaults:\n    compress:   <input>.pack  (e.g. data.bin -> data.bin.pack)\n    decompress: strip .pack   (e.g. data.bin.pack -> data.bin)\n\n  Options:\n    [block_size_bytes]  override automatic block size (power of 2, >= 64)\n\n  Diagnostics:\n  pack benchmark <directory> [block_size_bytes]\n  pack benchmark-generator <directory> [block_size_bytes]\n  pack benchmark-generator-debug <file> [block_size_bytes]".to_string()
}

/// What a verb asks for.
#[derive(Clone, Copy, Debug, Eq, PartialEq, Structural)]
pub enum Verb {
    Compress,
    Decompress,
    Benchmark,
    BenchmarkGenerator,
    BenchmarkGeneratorDebug,
}

/// The verb that a word stands for.
pub open spec fn verb_of(word: Seq<char>) -> Option<Verb> {
    if word == "compress"@ || word == "pack"@ {
        Some(Verb::Compress)
    } else if word == "decompress"@ || word == "unpack"@ {
        Some(Verb::Decompress)
    } else if word == "benchmark"@ {
        Some(Verb::Benchmark)
    } else if word == "benchmark-generator"@ {
        Some(Verb::BenchmarkGenerator)
    } else if word == "benchmark-generator-debug"@ {
        Some(Verb::BenchmarkGeneratorDebug)
    } else {
        None
    }
}

/// Compares texts.
fn same_text(a: &str, b: &str) -> (r: bool)
    ensures
        r == (a@ == b@),
{
    let n: usize = a.unicode_len();
    if n != b.unicode_len() {
        return false;
    }
    for i in 0..n
        invariant
            n == a@.len() == b@.len(),
            forall|k: int| 0 <= k < i ==> a@[k] == b@[k],
    {
        if a.get_char(i) != b.get_char(i) {
            return false;
        }
    }
    assert(a@ =~= b@);
    true
}

fn find_verb(word: &str) -> (r: Option<Verb>)
    ensures
        r == verb_of(word@),
{
    if same_text(word, "compress") || same_text(word, "pack") {
        Some(Verb::Compress)
    } else if same_text(word, "decompress") || same_text(word, "unpack") {
        Some(Verb::Decompress)
    } else if same_text(word, "benchmark") {
        Some(Verb::Benchmark)
    } else if same_text(word, "benchmark-generator") {
        Some(Verb::BenchmarkGenerator)
    } else if same_text(word, "benchmark-generator-debug") {
        Some(Verb::BenchmarkGeneratorDebug)
    } else {
        None
    }
}

/// The fourth word, if there is one.
pub open spec fn fourth(args: Seq<Seq<char>>) -> Option<Seq<char>> {
    if args.len() > 3 {
        Some(args[3])
    } else {
        None
    }
}

/// The task that the words of a command line ask for, the name of the program
/// being the first of them.
pub open spec fn task_of(args: Seq<Seq<char>>) -> Result<Task, Seq<char>> {
    if args.len() < 2 {
        Err(usage_text())
    } else {
        match verb_of(args[1]) {
            None => Err(usage_text()),
            Some(verb) => if args.len() < 3 {
                Err(usage_text())
            } else {
                match verb {
                    Verb::Compress => Ok(
                        Task::Compress {
                            input: args[2],
                            output: named_output(args),
                            block_size: first_number(args, 0),
                        },
                    ),
                    Verb::Decompress => Ok(
                        Task::Decompress { input: args[2], output: named_output(args) },
                    ),
                    Verb::Benchmark => match block_size_of(fourth(args)) {
                        Ok(block_size) => Ok(Task::Benchmark { path: args[2], block_size }),
                        Err(e) => Err(e),
                    },
                    Verb::BenchmarkGenerator => match block_size_of(fourth(args)) {
                        Ok(block_size) => Ok(
                            Task::BenchmarkGenerator { path: args[2], block_size },
                        ),
                        Err(e) => Err(e),
                    },
                    Verb::BenchmarkGeneratorDebug => match block_size_of(fourth(args)) {
                        Ok(block_size) => Ok(
                            Task::BenchmarkGeneratorDebug { path: args[2], block_size },
                        ),
                        Err(e) => Err(e),
                    },
                }
            },
        }
    }
}

fn benchmark_size(args: &[String]) -> (r: Result<Option<usize>, String>)
    ensures
        match r {
            Ok(size) => block_size_of(fourth(texts(args@))) == Ok::<Option<usize>, Seq<char>>(size),
            Err(e) => block_size_of(fourth(texts(args@))) == Err::<Option<usize>, Seq<char>>(e@),
        },
{
    if args.len() > 3 {
        parse_optional_block_size(Some(&args[3]))
    } else {
        parse_optional_block_size(None)
    }
}

/// Reads a command line.
pub fn parse_command(args: &[String]) -> (r: Result<Command, String>)
    ensures
        crate::text::outcome(r) == task_of(texts(args@)),
{
    if args.len() < 2 {
        return Err(usage());
    }
    let verb = match find_verb(args[1].as_str()) {
        Some(v) => v,
        None => return Err(usage()),
    };
    if args.len() < 3 {
        return Err(usage());
    }
    let first: String = args[2].clone();
    match verb {
        Verb::Compress => Ok(
            Command::Compress {
                input: first,
                output: take_output(args),
                block_size: find_number(args),
            },
        ),
        Verb::Decompress => Ok(Command::Decompress { input: first, output: take_output(args) }),
        Verb::Benchmark => match benchmark_size(args) {
            Ok(block_size) => Ok(Command::Benchmark { path: first, block_size }),
            Err(e) => Err(e),
        },
        Verb::BenchmarkGenerator => match benchmark_size(args) {
            Ok(block_size) => Ok(Command::BenchmarkGenerator { path: first, block_size }),
            Err(e) => Err(e),
        },
        Verb::BenchmarkGeneratorDebug => match benchmark_size(args) {
            Ok(block_size) => Ok(Command::BenchmarkGeneratorDebug { path: first, block_size }),
            Err(e) => Err(e),
        },
    }
}

/// The name of a compressed file.
pub fn default_compress_output(name: &str) -> (out: String)
    ensures
        out@ == name@ + ".pack"@,
{
    name.to_string().concat(".pack")
}

/// The name of a restored file: without its ending `.pack`, or with `.out`
/// where it has none.
pub open spec fn restored_name(name: Seq<char>) -> Seq<char> {
    if name.len() >= 5 && name.skip(name.len() - 5) == ".pack"@ {
        name.take(name.len() - 5)
    } else {
        name + ".out"@
    }
}

/// The name of a restored file.
pub fn default_decompress_output(name: &str) -> (out: String)
    ensures
        out@ == restored_name(name@),
{
    let n: usize = name.unicode_len();
    if n >= 5 {
        let tail = name.substring_char(n - 5, n);
        assert(tail@ =~= name@.skip(name@.len() - 5));
        if same_text(tail, ".pack") {
            let front = name.substring_char(0, n - 5);
            assert(front@ =~= name@.take(name@.len() - 5));
            return front.to_string();
        }
    }
    name.to_string().concat(".out")
}

/// A file that is compressed and restored under the default names keeps its
/// name.
pub proof fn law_default_names_are_undone(name: Seq<char>)
    ensures
        restored_name(name + ".pack"@) == name,
{
    reveal_strlit(".pack");
    let packed = name + ".pack"@;
    assert(packed.skip(packed.len() - 5) =~= ".pack"@);
    assert(packed.take(packed.len() - 5) =~= name);
}

proof fn lemma_digit(d: nat)
    requires
        d < 10,
    ensures
        crate::text::digit(d).len() == 1,
        digit_value(crate::text::digit(d)[0]) == Some(d),
{
    reveal_strlit("0");
    reveal_strlit("1");
    reveal_strlit("2");
    reveal_strlit("3");
    reveal_strlit("4");
    reveal_strlit("5");
    reveal_strlit("6");
    reveal_strlit("7");
    reveal_strlit("8");
    reveal_strlit("9");
}

/// The digits of a number behind any text are read as that number behind what
/// was read before.
proof fn lemma_digits_are_read(front: Seq<char>, n: nat, tail: Seq<char>)
    requires
        n <= usize::MAX,
    ensures
        crate::text::decimal(n).len() > 0,
        digit_value(crate::text::decimal(n)[0]) is Some,
        number_from(front + crate::text::decimal(n) + tail, front.len() as int, 0) == number_from(
            front + crate::text::decimal(n) + tail,
            (front.len() + crate::text::decimal(n).len()) as int,
            n,
        ),
    decreases n,
{
    let all = front + crate::text::decimal(n) + tail;
    if n < 10 {
        lemma_digit(n);
        assert(all[front.len() as int] == crate::text::digit(n)[0]);
    } else {
        let last = crate::text::digit(n % 10);
        let high = crate::text::decimal(n / 10);
        lemma_digit(n % 10);
        lemma_digits_are_read(front, n / 10, last + tail);
        assert(all =~= front + high + (last + tail));
        assert(all[(front.len() + high.len()) as int] == last[0]);
        assert(10 * (n / 10) + n % 10 == n);
    }
}

/// The decimal digits of a number, with a plus sign in front or without, are
/// read as that number.
pub proof fn law_number_is_read_back(n: usize)
    ensures
        number_of(crate::text::decimal(n as nat)) == Ok::<usize, NumberFault>(n),
        number_of(seq!['+'] + crate::text::decimal(n as nat)) == Ok::<usize, NumberFault>(n),
{
    let d = crate::text::decimal(n as nat);
    lemma_digits_are_read(Seq::empty(), n as nat, Seq::empty());
    lemma_digits_are_read(seq!['+'], n as nat, Seq::empty());
    assert(Seq::<char>::empty() + d + Seq::<char>::empty() =~= d);
    assert(seq!['+'] + d + Seq::<char>::empty() =~= seq!['+'] + d);
    assert(d[0] != '+');
}

/// A text that is read as a number holds nothing but digits behind the sign.
pub proof fn law_numbers_are_digits(s: Seq<char>, i: int)
    requires
        number_of(s) is Ok,
        0 <= i < s.len(),
    ensures
        '0' <= s[i] <= '9' || (i == 0 && s[0] == '+' && s.len() > 1),
{
    if s[0] == '+' {
        if i > 0 {
            lemma_all_digits(s, 1, 0, i);
        }
    } else {
        lemma_all_digits(s, 0, 0, i);
    }
}

proof fn lemma_all_digits(s: Seq<char>, at: int, value: nat, i: int)
    requires
        number_from(s, at, value) is Ok,
        at <= i < s.len(),
    ensures
        '0' <= s[i] <= '9',
    decreases s.len() - at,
{
    if at < i {
        lemma_all_digits(s, at + 1, 10 * value + digit_value(s[at])->Some_0, i);
    }
}

/// The first number among some words is that of the first word that is one.
pub proof fn law_first_number(args: Seq<Seq<char>>, i: int)
    requires
        0 <= i < args.len(),
        forall|k: int| 0 <= k < i ==> number_of(#[trigger] args[k]) is Err,
    ensures
        number_of(args[i]) matches Ok(n) ==> first_number(args, 0) == Some(n),
        i == args.len() - 1 && number_of(args[i]) is Err ==> first_number(args, 0) is None,
{
    lemma_first_number(args, 0, i);
}

proof fn lemma_first_number(args: Seq<Seq<char>>, at: int, i: int)
    requires
        0 <= at <= i < args.len(),
        forall|k: int| at <= k < i ==> number_of(#[trigger] args[k]) is Err,
    ensures
        first_number(args, at) == (match number_of(args[i]) {
            Ok(n) => Some(n),
            Err(_) => first_number(args, i + 1),
        }),
    decreases i - at,
{
    if at < i {
        lemma_first_number(args, at + 1, i);
    }
}

/// The words `compress` and `pack` ask for the same task, and so do `decompress`
/// and `unpack`. The third word names the file, the fourth the output.
pub proof fn law_tasks(program: Seq<char>, path: Seq<char>, output: Seq<char>)
    requires
        number_of(program) is Err,
        number_of(path) is Err,
        number_of(output) is Err,
        output.len() > 0,
        output[0] != '-',
    ensures
        task_of(seq![program, "compress"@, path, output]) == Ok::<Task, Seq<char>>(
            Task::Compress { input: path, output: Some(output), block_size: None },
        ),
        task_of(seq![program, "pack"@, path, output]) == task_of(
            seq![program, "compress"@, path, output],
        ),
        task_of(seq![program, "decompress"@, path, output]) == Ok::<Task, Seq<char>>(
            Task::Decompress { input: path, output: Some(output) },
        ),
        task_of(seq![program, "unpack"@, path, output]) == task_of(
            seq![program, "decompress"@, path, output],
        ),
        task_of(seq![program, "compress"@, path]) == Ok::<Task, Seq<char>>(
            Task::Compress { input: path, output: None, block_size: None },
        ),
        task_of(seq![program, "decompress"@, path]) == Ok::<Task, Seq<char>>(
            Task::Decompress { input: path, output: None },
        ),
{
    reveal_strlit("compress");
    reveal_strlit("pack");
    reveal_strlit("decompress");
    reveal_strlit("unpack");
    assert("decompress"@.len() != "compress"@.len());
    assert("decompress"@.len() != "pack"@.len());
    assert("unpack"@.len() != "compress"@.len());
    assert("unpack"@.len() != "pack"@.len());
    assert("compress"@[0] == 'c');
    assert("pack"@[0] == 'p');
    assert(number_of("compress"@) is Err);
    assert(number_of("pack"@) is Err);
    let a = seq![program, "compress"@, path, output];
    let b = seq![program, "pack"@, path, output];
    let c = seq![program, "compress"@, path];
    law_first_number(a, 3);
    law_first_number(b, 3);
    law_first_number(c, 2);
}

/// The name of a restored file is shorter by `.pack` exactly where the name ends
/// so; otherwise it is longer by `.out`.
pub proof fn law_restored_name(name: Seq<char>)
    ensures
        (exists|stem: Seq<char>| name == #[trigger] (stem + ".pack"@)) <==> restored_name(
            name,
        ).len() < name.len(),
        restored_name(name).len() < name.len() ==> name == restored_name(name) + ".pack"@,
        restored_name(name).len() >= name.len() ==> restored_name(name) == name + ".out"@,
{
    reveal_strlit(".pack");
    reveal_strlit(".out");
    if restored_name(name).len() < name.len() {
        let stem = restored_name(name);
        assert(stem + ".pack"@ =~= name) by {
            let tail = name.skip(name.len() - 5);
            assert(tail =~= ".pack"@);
            assert(stem + tail =~= name);
        }
    }
    if exists|stem: Seq<char>| name == #[trigger] (stem + ".pack"@) {
        let stem = choose|stem: Seq<char>| name == #[trigger] (stem + ".pack"@);
        law_default_names_are_undone(stem);
    }
}

proof fn lemma_verbs()
    ensures
        verb_of("compress"@) == Some(Verb::Compress),
        verb_of("benchmark"@) == Some(Verb::Benchmark),
        verb_of("benchmark-generator"@) == Some(Verb::BenchmarkGenerator),
        verb_of("benchmark-generator-debug"@) == Some(Verb::BenchmarkGeneratorDebug),
        number_of("compress"@) is Err,
{
    reveal_strlit("compress");
    reveal_strlit("pack");
    reveal_strlit("decompress");
    reveal_strlit("unpack");
    reveal_strlit("benchmark");
    reveal_strlit("benchmark-generator");
    reveal_strlit("benchmark-generator-debug");
    assert("compress"@[0] == 'c');
    assert("benchmark"@.len() == 9);
    assert("benchmark-generator"@.len() == 19);
    assert("benchmark-generator-debug"@.len() == 25);
    assert("compress"@.len() == 8 && "pack"@.len() == 4);
    assert("decompress"@.len() == 10 && "unpack"@.len() == 6);
}

/// The three benchmarks take a path and a block size that may be missing; a block
/// size that is no number is refused.
pub proof fn law_benchmark_tasks(program: Seq<char>, path: Seq<char>, size: Seq<char>)
    ensures
        task_of(seq![program, "benchmark"@, path]) == Ok::<Task, Seq<char>>(
            Task::Benchmark { path, block_size: None },
        ),
        task_of(seq![program, "benchmark-generator"@, path]) == Ok::<Task, Seq<char>>(
            Task::BenchmarkGenerator { path, block_size: None },
        ),
        task_of(seq![program, "benchmark-generator-debug"@, path]) == Ok::<Task, Seq<char>>(
            Task::BenchmarkGeneratorDebug { path, block_size: None },
        ),
        match number_of(size) {
            Ok(n) => {
                &&& task_of(seq![program, "benchmark"@, path, size]) == Ok::<Task, Seq<char>>(
                    Task::Benchmark { path, block_size: Some(n) },
                )
                &&& task_of(seq![program, "benchmark-generator"@, path, size]) == Ok::<
                    Task,
                    Seq<char>,
                >(Task::BenchmarkGenerator { path, block_size: Some(n) })
                &&& task_of(seq![program, "benchmark-generator-debug"@, path, size]) == Ok::<
                    Task,
                    Seq<char>,
                >(Task::BenchmarkGeneratorDebug { path, block_size: Some(n) })
            },
            Err(_) => {
                &&& task_of(seq![program, "benchmark"@, path, size]) is Err
                &&& task_of(seq![program, "benchmark-generator"@, path, size]) is Err
                &&& task_of(seq![program, "benchmark-generator-debug"@, path, size]) is Err
            },
        },
{
    lemma_verbs();
}

/// A number behind the names is the block size of a compression. Without a path,
/// or with a verb that is not known, the program tells how it is used.
pub proof fn law_block_size_of_compression(
    program: Seq<char>,
    path: Seq<char>,
    output: Seq<char>,
    size: usize,
    args: Seq<Seq<char>>,
)
    requires
        number_of(program) is Err,
        number_of(path) is Err,
        number_of(output) is Err,
    ensures
        task_of(
            seq![program, "compress"@, path, output, crate::text::decimal(size as nat)],
        ) matches Ok(Task::Compress { input, block_size, .. }) && input == path && block_size
            == Some(size),
        args.len() < 3 || verb_of(args[1]) is None ==> task_of(args) == Err::<Task, Seq<char>>(
            usage_text(),
        ),
{
    lemma_verbs();
    law_number_is_read_back(size);
    let a = seq![program, "compress"@, path, output, crate::text::decimal(size as nat)];
    law_first_number(a, 4);
}

} // verus!
