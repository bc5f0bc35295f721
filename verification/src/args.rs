use vstd::prelude::*;
use vstd::string::StringSliceAdditionalSpecFns;
use vstd::utf8::*;

verus! {

broadcast use vstd::string::group_string_axioms;

/// What a command line asks of a search.
pub struct GrepArgs {
    /// The pattern to search for.
    pub pattern_text: String,
    /// The files to search; with none, standard input is searched.
    pub file_paths: Vec<String>,
    /// Whether each line written starts with the name of its file and a colon.
    pub print_file_name: bool,
    /// Whether only the matched parts of lines are written (`-o`).
    pub only_matching: bool,
    /// Whether matches are highlighted.
    pub color_mode: bool,
}

/// Why a command line cannot be used.
#[derive(Debug, PartialEq, Eq, Structural)]
pub enum ArgsError {
    /// No argument after the program name is a pattern: each starts with `-`.
    NoPattern,
}

/// The arguments as character sequences.
pub open spec fn args_view(args: Seq<String>) -> Seq<Seq<char>> {
    args.map_values(|a: String| a@)
}

/// An argument that starts with `-` is a flag.
pub open spec fn is_flag(arg: Seq<char>) -> bool {
    arg.len() > 0 && arg[0] == '-'
}

/// The first argument at index `from` or later that is not a flag.
pub open spec fn first_operand(args: Seq<Seq<char>>, from: nat) -> Option<Seq<char>>
    decreases args.len() - from,
{
    if from >= args.len() {
        None
    } else if !is_flag(args[from as int]) {
        Some(args[from as int])
    } else {
        first_operand(args, from + 1)
    }
}

/// The arguments that are not flags, in order, the program name among them
/// unless it starts with `-`.
pub open spec fn operands(args: Seq<Seq<char>>) -> Seq<Seq<char>>
    decreases args.len(),
{
    if args.len() == 0 {
        Seq::empty()
    } else {
        let init = operands(args.drop_last());
        if is_flag(args.last()) {
            init
        } else {
            init.push(args.last())
        }
    }
}

/// The operands after the first two (the program name and the pattern): the
/// files or directories to search.
pub open spec fn path_operands(args: Seq<Seq<char>>) -> Seq<Seq<char>> {
    let ops = operands(args);
    if ops.len() <= 2 {
        Seq::empty()
    } else {
        ops.subrange(2, ops.len() as int)
    }
}

/// Whether one of the arguments is exactly `flag`.
pub open spec fn has_arg(args: Seq<Seq<char>>, flag: Seq<char>) -> bool {
    exists|i: int| 0 <= i < args.len() && args[i] == flag
}

/// Whether two texts hold the same characters.
fn same_text(a: &str, b: &str) -> (r: bool)
    ensures
        r == (a@ == b@),
{
    let x = a.as_bytes();
    let y = b.as_bytes();
    proof {
        encode_utf8_decode_utf8(a@);
        encode_utf8_decode_utf8(b@);
    }
    if x.len() != y.len() {
        return false;
    }
    let mut i: usize = 0;
    while i < x.len()
        invariant
            x@ == a.spec_bytes(),
            y@ == b.spec_bytes(),
            x.len() == y.len(),
            i <= x.len(),
            forall|j: int| 0 <= j < i ==> x@[j] == y@[j],
        decreases x.len() - i,
    {
        if x[i] != y[i] {
            return false;
        }
        i += 1;
    }
    assert(x@ =~= y@);
    true
}

/// Whether an argument starts with `-`.
fn starts_with_dash(arg: &str) -> (r: bool)
    ensures
        r == is_flag(arg@),
{
    if arg.is_empty() {
        return false;
    }
    arg.get_char(0) == '-'
}

/// Whether one of the arguments is exactly `flag`.
fn any_arg_is(env_args: &Vec<String>, flag: &str) -> (r: bool)
    ensures
        r == has_arg(args_view(env_args@), flag@),
{
    let ghost args = args_view(env_args@);
    let mut i: usize = 0;
    while i < env_args.len()
        invariant
            args == args_view(env_args@),
            i <= env_args.len(),
            forall|j: int| 0 <= j < i ==> args[j] != flag@,
        decreases env_args.len() - i,
    {
        if same_text(env_args[i].as_str(), flag) {
            assert(args[i as int] == flag@);
            return true;
        }
        i += 1;
    }
    false
}

/// The operands of `args` are those of its prefixes extended one argument at a time.
proof fn lemma_operands_step(args: Seq<Seq<char>>, i: int)
    requires
        0 <= i < args.len(),
    ensures
        operands(args.subrange(0, i + 1)) == (if is_flag(args[i]) {
            operands(args.subrange(0, i))
        } else {
            operands(args.subrange(0, i)).push(args[i])
        }),
{
    let pre = args.subrange(0, i + 1);
    assert(pre.drop_last() =~= args.subrange(0, i));
    assert(pre.last() == args[i]);
}

/// Reads a command line: `env_args` holds every argument, the program name first;
/// `stdout_is_terminal` tells whether standard output is a terminal, which
/// `--color=auto` asks about. The file list holds the path operands as given;
/// the flag beside it says whether `-r` asks for directories among them to be
/// searched through (see `expand_operands`).
pub fn parse_args(env_args: &Vec<String>, stdout_is_terminal: bool) -> (r: Result<(GrepArgs, bool), ArgsError>)
    ensures
        match first_operand(args_view(env_args@), 1) {
            None => r == Err::<(GrepArgs, bool), ArgsError>(ArgsError::NoPattern),
            Some(p) => r matches Ok((g, recursive)) && {
                let args = args_view(env_args@);
                &&& g.pattern_text@ == p
                &&& args_view(g.file_paths@) == path_operands(args)
                &&& recursive == has_arg(args, "-r"@)
                &&& g.print_file_name == (recursive || path_operands(args).len() > 1)
                &&& g.only_matching == has_arg(args, "-o"@)
                &&& g.color_mode == (has_arg(args, "--color=always"@) || (has_arg(args, "--color=auto"@)
                    && stdout_is_terminal))
            },
        },
{
    let ghost args = args_view(env_args@);
    let only_matching = any_arg_is(env_args, "-o");
    let is_color_always = any_arg_is(env_args, "--color=always");
    let is_color_auto = any_arg_is(env_args, "--color=auto");
    let color_mode = is_color_always || (is_color_auto && stdout_is_terminal);

    let mut pattern_text: Option<String> = None;
    let mut i: usize = 1;
    while i < env_args.len()
        invariant
            args == args_view(env_args@),
            1 <= i <= env_args.len() || env_args.len() == 0,
            match pattern_text {
                None => first_operand(args, 1) == first_operand(args, i as nat),
                Some(p) => first_operand(args, 1) == Some(p@),
            },
        decreases env_args.len() - i,
    {
        if pattern_text.is_none() && !starts_with_dash(env_args[i].as_str()) {
            pattern_text = Some(env_args[i].clone());
        }
        i += 1;
    }
    let pattern_text = match pattern_text {
        Some(p) => p,
        None => {
            return Err(ArgsError::NoPattern);
        },
    };

    let mut ops: Vec<String> = Vec::new();
    let mut k: usize = 0;
    while k < env_args.len()
        invariant
            args == args_view(env_args@),
            k <= env_args.len(),
            args_view(ops@) == operands(args.subrange(0, k as int)),
        decreases env_args.len() - k,
    {
        proof {
            lemma_operands_step(args, k as int);
        }
        if !starts_with_dash(env_args[k].as_str()) {
            let ghost before = ops@;
            ops.push(env_args[k].clone());
            assert(args_view(ops@) =~= args_view(before).push(args[k as int]));
        }
        k += 1;
    }
    assert(args.subrange(0, env_args.len() as int) =~= args);
    let mut file_paths: Vec<String> = Vec::new();
    assert(args_view(file_paths@) =~= Seq::<Seq<char>>::empty());
    let mut m: usize = 2;
    while m < ops.len()
        invariant
            args_view(ops@) == operands(args),
            2 <= m,
            ops.len() >= 2 ==> m <= ops.len() && args_view(file_paths@) == operands(args).subrange(2, m as int),
            ops.len() < 2 ==> file_paths@.len() == 0,
        decreases ops.len() - m,
    {
        let ghost before = file_paths@;
        file_paths.push(ops[m].clone());
        assert(args_view(file_paths@) =~= args_view(before).push(args_view(ops@)[m as int]));
        assert(args_view(file_paths@) =~= operands(args).subrange(2, m + 1));
        m += 1;
    }
    assert(args_view(file_paths@) =~= path_operands(args));
    let recursive = any_arg_is(env_args, "-r");
    let print_file_name = recursive || file_paths.len() > 1;
    Ok((GrepArgs { pattern_text, file_paths, print_file_name, only_matching, color_mode }, recursive))
}

/// For each operand, the files found under it where it is a directory, or
/// nothing where it is not, as character sequences.
pub open spec fn listings_view(listings: Seq<Option<Vec<String>>>) -> Seq<Option<Seq<Seq<char>>>> {
    listings.map_values(
        |l: Option<Vec<String>>|
            match l {
                Some(files) => Some(args_view(files@)),
                None => None,
            },
    )
}

/// The files a recursive search goes through: an operand listed as a directory
/// stands for the files found under it, in the order found; any other operand
/// stands for itself.
pub open spec fn expanded(operands: Seq<Seq<char>>, listings: Seq<Option<Seq<Seq<char>>>>) -> Seq<
    Seq<char>,
>
    decreases operands.len(),
{
    if operands.len() == 0 || listings.len() == 0 {
        Seq::empty()
    } else {
        expanded(operands.drop_last(), listings.drop_last()) + match listings.last() {
            Some(files) => files,
            None => seq![operands.last()],
        }
    }
}

/// The files to search when `-r` is given: `listings` holds, for each operand,
/// the files found under it where it is a directory, or `None` where it is not.
pub fn expand_operands(operands: &Vec<String>, listings: &Vec<Option<Vec<String>>>) -> (r: Vec<String>)
    requires
        operands.len() == listings.len(),
    ensures
        args_view(r@) == expanded(args_view(operands@), listings_view(listings@)),
{
    let ghost ops = args_view(operands@);
    let ghost ls = listings_view(listings@);
    let mut files: Vec<String> = Vec::new();
    let mut i: usize = 0;
    assert(args_view(files@) =~= expanded(ops.subrange(0, 0), ls.subrange(0, 0)));
    while i < operands.len()
        invariant
            ops == args_view(operands@),
            ls == listings_view(listings@),
            operands.len() == listings.len(),
            i <= operands.len(),
            args_view(files@) == expanded(ops.subrange(0, i as int), ls.subrange(0, i as int)),
        decreases operands.len() - i,
    {
        let ghost before = args_view(files@);
        match &listings[i] {
            Some(found) => {
                let mut k: usize = 0;
                while k < found.len()
                    invariant
                        k <= found.len(),
                        args_view(files@) == before + args_view(found@).subrange(0, k as int),
                    decreases found.len() - k,
                {
                    let ghost prev = files@;
                    files.push(found[k].clone());
                    assert(args_view(files@) =~= args_view(prev).push(args_view(found@)[k as int]));
                    assert(args_view(found@).subrange(0, k + 1) =~= args_view(found@).subrange(0, k as int).push(
                        args_view(found@)[k as int],
                    ));
                    k += 1;
                }
                assert(args_view(found@).subrange(0, k as int) =~= args_view(found@));
                assert(ls[i as int] == Some(args_view(found@)));
            },
            None => {
                let ghost prev = files@;
                files.push(operands[i].clone());
                assert(args_view(files@) =~= args_view(prev).push(ops[i as int]));
                assert(ls[i as int] == None::<Seq<Seq<char>>>);
            },
        }
        proof {
            let o = ops.subrange(0, i + 1);
            let l = ls.subrange(0, i + 1);
            assert(o.drop_last() =~= ops.subrange(0, i as int));
            assert(l.drop_last() =~= ls.subrange(0, i as int));
            assert(o.last() == ops[i as int]);
            assert(l.last() == ls[i as int]);
            assert(args_view(files@) =~= expanded(o, l));
        }
        i += 1;
    }
    assert(ops.subrange(0, i as int) =~= ops);
    assert(ls.subrange(0, i as int) =~= ls);
    files
}

} // verus!
