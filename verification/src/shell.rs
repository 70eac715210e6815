//! The shell: its arguments, and what is typed into it.

use vstd::prelude::*;
use vstd::string::StringExecFns;
use crate::text::{ascii_lower, ascii_to_lower, chars_of, copy_str, is_blank,
    law_trimmed_is_what_is_between, same_str, string_of, trim, trimmed};

verus! {

// ── Arguments ──

/// What the shell was started with.
#[derive(Debug)]
pub struct Options {
    pub data_dir: String,
    pub text_mode: bool,
}

/// The contents of [`Options`].
pub struct OptionsModel {
    pub data_dir: Seq<char>,
    pub text_mode: bool,
}

impl View for Options {
    type V = OptionsModel;

    open spec fn view(&self) -> OptionsModel {
        OptionsModel { data_dir: self.data_dir@, text_mode: self.text_mode }
    }
}

/// What the arguments from `from` on make of some options, or what is wrong with them.
pub open spec fn options_from(args: Seq<String>, from: int, options: OptionsModel) -> Result<
    OptionsModel,
    Seq<char>,
>
    decreases args.len() - from,
{
    if from >= args.len() {
        Ok(options)
    } else if args[from]@ == "--data-dir"@ {
        if from + 1 >= args.len() {
            Err("--data-dir requires a value"@)
        } else {
            options_from(
                args,
                from + 2,
                OptionsModel { data_dir: args[from + 1]@, ..options },
            )
        }
    } else if args[from]@ == "--text-mode"@ {
        options_from(args, from + 1, OptionsModel { text_mode: true, ..options })
    } else {
        Err("unknown argument: "@ + args[from]@)
    }
}

/// The options that some arguments give. The first argument is the name of the program.
pub open spec fn options_of(args: Seq<String>) -> Result<OptionsModel, Seq<char>> {
    options_from(args, 1, OptionsModel { data_dir: "./TESTDB"@, text_mode: false })
}

/// Reads the arguments.
pub fn parse_args(args: &Vec<String>) -> (r: Result<Options, String>)
    ensures
        match r {
            Ok(o) => options_of(args@) == Ok::<OptionsModel, Seq<char>>(o@),
            Err(m) => options_of(args@) == Err::<OptionsModel, Seq<char>>(m@),
        },
{
    let n: usize = args.len();
    let mut options = Options { data_dir: "./TESTDB".to_owned(), text_mode: false };
    let mut i: usize = 1;
    while i < n
        invariant
            1 <= i,
            n == args@.len(),
            options_of(args@) == options_from(args@, i as int, options@),
        decreases n - i,
    {
        if same_str(args[i].as_str(), "--data-dir") {
            if n - i < 2 {
                return Err("--data-dir requires a value".to_owned());
            }
            options.data_dir = copy_str(args[i + 1].as_str());
            i = if n - i == 2 { n } else { i + 2 };
        } else if same_str(args[i].as_str(), "--text-mode") {
            options.text_mode = true;
            i += 1;
        } else {
            return Err("unknown argument: ".to_owned().concat(args[i].as_str()));
        }
    }
    Ok(options)
}

// ── Lines ──

/// What a line asks for.
#[derive(Debug)]
pub enum Input {
    Nothing,
    Quit,
    Sql(String),
}

/// The contents of an [`Input`].
pub enum InputModel {
    Nothing,
    Quit,
    Sql(Seq<char>),
}

impl View for Input {
    type V = InputModel;

    open spec fn view(&self) -> InputModel {
        match self {
            Input::Nothing => InputModel::Nothing,
            Input::Quit => InputModel::Quit,
            Input::Sql(s) => InputModel::Sql(s@),
        }
    }
}

/// Whether two texts are equal but for the case of ASCII letters.
pub open spec fn same_but_case(a: Seq<char>, b: Seq<char>) -> bool {
    a.map_values(|c: char| ascii_lower(c)) == b.map_values(|c: char| ascii_lower(c))
}

/// What a line asks for: nothing where it is empty but for white space, to quit, or to run it.
pub open spec fn input_of(line: Seq<char>) -> InputModel {
    let text = trimmed(line);
    if text.len() == 0 {
        InputModel::Nothing
    } else if text == "\\q"@ || same_but_case(text, "quit"@) || same_but_case(text, "exit"@) {
        InputModel::Quit
    } else {
        InputModel::Sql(text)
    }
}

fn equal_but_case(a: &Vec<char>, b: &str) -> (r: bool)
    ensures
        r == same_but_case(a@, b@),
{
    let other: Vec<char> = chars_of(b);
    let n: usize = a.len();
    let ghost la = a@.map_values(|c: char| ascii_lower(c));
    let ghost lb = b@.map_values(|c: char| ascii_lower(c));
    if n != other.len() {
        assert(la.len() != lb.len());
        return false;
    }
    let mut i: usize = 0;
    while i < n
        invariant
            i <= n,
            n == a@.len() == other@.len(),
            other@ == b@,
            la == a@.map_values(|c: char| ascii_lower(c)),
            lb == b@.map_values(|c: char| ascii_lower(c)),
            forall|k: int| 0 <= k < i ==> la[k] == lb[k],
        decreases n - i,
    {
        assert(la[i as int] == ascii_lower(a@[i as int]));
        assert(lb[i as int] == ascii_lower(b@[i as int]));
        if ascii_to_lower(a[i]) != ascii_to_lower(other[i]) {
            return false;
        }
        i += 1;
    }
    assert(la =~= lb);
    true
}

/// Reads a line.
pub fn read_input(line: &str) -> (r: Input)
    ensures
        r@ == input_of(line@),
{
    let text: Vec<char> = trim(chars_of(line).as_slice());
    if text.len() == 0 {
        return Input::Nothing;
    }
    let input: String = string_of(text.as_slice());
    if same_str(input.as_str(), "\\q") || equal_but_case(&text, "quit") || equal_but_case(
        &text,
        "exit",
    ) {
        Input::Quit
    } else {
        Input::Sql(input)
    }
}

// ── Laws of the shell ──

/// Whether two characters are equal, or are the small and the capital form of one ASCII letter.
pub open spec fn alike(a: char, b: char) -> bool {
    ||| a == b
    ||| 'a' <= a <= 'z' && a as u32 == b as u32 + 32
    ||| 'a' <= b <= 'z' && b as u32 == a as u32 + 32
}

/// Two texts are equal but for the case of letters if and only if they have the same length and are
/// alike character by character.
pub proof fn law_case_makes_no_difference(a: Seq<char>, b: Seq<char>)
    ensures
        same_but_case(a, b) <==> a.len() == b.len() && forall|i: int|
            0 <= i < a.len() ==> alike(#[trigger] a[i], b[i]),
{
    let la = a.map_values(|c: char| ascii_lower(c));
    let lb = b.map_values(|c: char| ascii_lower(c));
    if same_but_case(a, b) {
        assert(la.len() == lb.len());
        assert forall|i: int| 0 <= i < a.len() implies alike(#[trigger] a[i], b[i]) by {
            assert(la[i] == lb[i]);
        }
    }
    if a.len() == b.len() && forall|i: int| 0 <= i < a.len() ==> alike(#[trigger] a[i], b[i]) {
        assert(la =~= lb) by {
            assert forall|i: int| 0 <= i < la.len() implies la[i] == lb[i] by {
                assert(alike(a[i], b[i]));
            }
        }
    }
}

/// What a line asks for: nothing, where it is white space alone; to quit, where it says `quit` or
/// `exit`, in any case, or `\q`; and else to run it, without the white space around it.
pub proof fn law_line_is_run_unless_it_quits(line: Seq<char>)
    ensures
        is_blank(line) ==> input_of(line) == InputModel::Nothing,
        input_of(line) == InputModel::Nothing ==> trimmed(line).len() == 0,
        trimmed(line).len() > 0 && (trimmed(line) == "\\q"@ || same_but_case(trimmed(line), "quit"@)
            || same_but_case(trimmed(line), "exit"@)) <==> input_of(line) == InputModel::Quit,
        input_of(line) matches InputModel::Sql(text) ==> text == trimmed(line),
{
    law_trimmed_is_what_is_between(line);
}

proof fn lemma_options_more(
    args: Seq<String>,
    tail: Seq<String>,
    from: int,
    options: OptionsModel,
)
    requires
        0 <= from <= args.len(),
        options_from(args, from, options) is Ok,
    ensures
        options_from(args + tail, from, options) == options_from(
            args + tail,
            args.len() as int,
            options_from(args, from, options)->Ok_0,
        ),
    decreases args.len() - from,
{
    if from < args.len() {
        assert((args + tail)[from] == args[from]);
        if args[from]@ == "--data-dir"@ {
            assert((args + tail)[from + 1] == args[from + 1]);
            lemma_options_more(
                args,
                tail,
                from + 2,
                OptionsModel { data_dir: args[from + 1]@, ..options },
            );
        } else {
            lemma_options_more(
                args,
                tail,
                from + 1,
                OptionsModel { text_mode: true, ..options },
            );
        }
    }
}

/// Without arguments the data is in `./TESTDB` and not text. `--text-mode` makes it text,
/// `--data-dir` and a place put it there, and both leave the rest as the arguments before them say.
/// `--data-dir` without a place, and anything else, is refused.
pub proof fn law_arguments_are_read_in_their_order(args: Seq<String>, x: String, y: String)
    requires
        args.len() >= 1,
        options_of(args) is Ok,
    ensures
        args.len() == 1 ==> options_of(args)->Ok_0 == (OptionsModel {
            data_dir: "./TESTDB"@,
            text_mode: false,
        }),
        x@ == "--text-mode"@ ==> options_of(args + seq![x]) == Ok::<OptionsModel, Seq<char>>(
            OptionsModel { text_mode: true, ..options_of(args)->Ok_0 },
        ),
        x@ == "--data-dir"@ ==> options_of(args + seq![x, y]) == Ok::<OptionsModel, Seq<char>>(
            OptionsModel { data_dir: y@, ..options_of(args)->Ok_0 },
        ),
        x@ == "--data-dir"@ ==> options_of(args + seq![x]) == Err::<OptionsModel, Seq<char>>(
            "--data-dir requires a value"@,
        ),
        x@ != "--data-dir"@ && x@ != "--text-mode"@ ==> options_of(args + seq![x]) == Err::<
            OptionsModel,
            Seq<char>,
        >("unknown argument: "@ + x@),
{
    reveal_strlit("--data-dir");
    reveal_strlit("--text-mode");
    assert("--data-dir"@.len() != "--text-mode"@.len());
    let first = OptionsModel { data_dir: "./TESTDB"@, text_mode: false };
    lemma_options_more(args, seq![x], 1, first);
    lemma_options_more(args, seq![x, y], 1, first);
    let n = args.len() as int;
    assert((args + seq![x])[n] == x);
    assert((args + seq![x, y])[n] == x);
    assert((args + seq![x, y])[n + 1] == y);
    reveal_with_fuel(options_from, 3);
}

} // verus!
