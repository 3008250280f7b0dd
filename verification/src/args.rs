//! Command line arguments: flags, their values, and what stands between them.
use crate::text;
use vstd::prelude::*;

verus! {

/// The first place from `i` on at which `name` stands among the arguments.
pub open spec fn place_of(args: Seq<Seq<char>>, name: Seq<char>, i: int) -> int
    decreases args.len() - i,
{
    if i >= args.len() || args[i] == name {
        i
    } else {
        place_of(args, name, i + 1)
    }
}

/// What follows the first occurrence of a flag.
pub open spec fn value_of(args: Seq<Seq<char>>, name: Seq<char>) -> Option<Seq<char>> {
    let i = place_of(args, name, 0);
    if i + 1 < args.len() {
        Some(args[i + 1])
    } else {
        None
    }
}

/// The first place at which a flag stands.
fn find_flag(args: &[String], name: &str) -> (r: usize)
    ensures
        r == place_of(text::views(args@), name@, 0),
        r <= args@.len(),
        r < args@.len() ==> args@[r as int]@ == name@,
        r == args@.len() ==> !text::views(args@).contains(name@),
{
    let ghost all = text::views(args@);
    let mut i: usize = 0;
    while i < args.len()
        invariant
            i <= args.len(),
            all == text::views(args@),
            place_of(all, name@, 0) == place_of(all, name@, i as int),
            forall|k: int| 0 <= k < i ==> #[trigger] all[k] != name@,
        decreases args.len() - i,
    {
        if text::str_eq(args[i].as_str(), name) {
            return i;
        }
        i += 1;
    }
    i
}

/// The value of a flag, if it is given and something follows it.
pub fn flag_val<'a>(args: &'a [String], name: &str) -> (r: Option<&'a str>)
    ensures
        match value_of(text::views(args@), name@) {
            Some(v) => r is Some && r->Some_0@ == v,
            None => r is None,
        },
{
    let i: usize = find_flag(args, name);
    if i < args.len() && args.len() - i > 1 {
        Some(args[i + 1].as_str())
    } else {
        None
    }
}

/// Whether a flag is given.
pub fn has(args: &[String], name: &str) -> (r: bool)
    ensures
        r == text::views(args@).contains(name@),
{
    let i: usize = find_flag(args, name);
    proof {
        if i < args.len() {
            assert(text::views(args@)[i as int] == name@);
        }
    }
    i < args.len()
}

/// The number that a flag gives, or `default` where it gives none of at most `max`.
pub open spec fn number_of(args: Seq<Seq<char>>, name: Seq<char>, default: u64, max: u64) -> u64 {
    match value_of(args, name) {
        Some(v) => match text::numeral(v, max as nat) {
            Some(n) => n as u64,
            None => default,
        },
        None => default,
    }
}

proof fn numeral_is_bounded(s: Seq<char>, max: nat)
    ensures
        text::numeral(s, max) matches Some(n) ==> n <= max,
{
}

/// The number that a flag gives, or `default` where it gives none of at most `max`.
pub fn num(args: &[String], name: &str, default: u64, max: u64) -> (r: u64)
    ensures
        r == number_of(text::views(args@), name@, default, max),
        default <= max ==> r <= max,
{
    match flag_val(args, name) {
        Some(v) => {
            proof {
                numeral_is_bounded(v@, max as nat);
            }
            match text::parse_unsigned(v, max) {
                Some(n) => n,
                None => default,
            }
        },
        None => default,
    }
}

/// The size that a flag gives, or `default`.
pub fn num_size(args: &[String], name: &str, default: usize) -> (r: usize)
    ensures
        r == number_of(text::views(args@), name@, default as u64, usize::MAX as u64),
{
    num(args, name, default as u64, usize::MAX as u64) as usize
}

/// The arguments from the `i`-th on that are neither flags nor values of `flags`.
pub open spec fn plain_from(args: Seq<Seq<char>>, flags: Seq<Seq<char>>, i: int) -> Seq<Seq<char>>
    decreases args.len() + 1 - i,
{
    if i >= args.len() {
        Seq::empty()
    } else if text::starts_with(args[i], "--"@) {
        plain_from(args, flags, if flags.contains(args[i]) {
            i + 2
        } else {
            i + 1
        })
    } else {
        seq![args[i]] + plain_from(args, flags, i + 1)
    }
}

fn is_one_of(name: &str, flags: &Vec<String>) -> (r: bool)
    ensures
        r == text::views(flags@).contains(name@),
{
    let ghost all = text::views(flags@);
    let mut i: usize = 0;
    while i < flags.len()
        invariant
            i <= flags.len(),
            all == text::views(flags@),
            forall|k: int| 0 <= k < i ==> #[trigger] all[k] != name@,
        decreases flags.len() - i,
    {
        if text::str_eq(flags[i].as_str(), name) {
            assert(all[i as int] == name@);
            return true;
        }
        i += 1;
    }
    false
}

/// The arguments from number `start` on that are neither flags nor values of
/// `flags`.
pub fn plain_arguments(args: &[String], flags: &Vec<String>, start: usize) -> (r: Vec<String>)
    ensures
        text::views(r@) == plain_from(text::views(args@), text::views(flags@), start as int),
{
    let ghost all = text::views(args@);
    let ghost names = text::views(flags@);
    let ghost wanted = plain_from(all, names, start as int);
    let mut out: Vec<String> = Vec::new();
    let mut i: usize = start;
    assert(text::views(out@) + plain_from(all, names, start as int) =~= wanted);
    while i < args.len()
        invariant
            all == text::views(args@),
            names == text::views(flags@),
            wanted == plain_from(all, names, start as int),
            text::views(out@) + plain_from(all, names, i as int) == wanted,
        decreases args.len() - i,
    {
        let a: &String = &args[i];
        if text::str_starts_with(a.as_str(), "--") {
            let skip: bool = is_one_of(a.as_str(), flags);
            i += 1;
            if skip {
                if i >= args.len() {
                    assert(plain_from(all, names, i as int + 1) =~= Seq::empty());
                    assert(text::views(out@) =~= wanted);
                    return out;
                }
                i += 1;
            }
        } else {
            let ghost before = text::views(out@);
            let ghost rest = plain_from(all, names, i as int + 1);
            out.push(a.clone());
            assert(text::views(out@) =~= before.push(a@));
            assert(text::views(out@) + rest =~= before + (seq![a@] + rest));
            i += 1;
        }
    }
    assert(text::views(out@) + Seq::<Seq<char>>::empty() =~= text::views(out@));
    out
}

/// The flags of the benchmark tool that take a value.
pub open spec fn bench_flags() -> Seq<Seq<char>> {
    seq![
        "--iters"@,
        "--seed"@,
        "--tensors"@,
        "--large"@,
        "--depth"@,
        "--chunk-mb"@,
        "--repeat"@,
        "--block"@,
        "--gap"@,
    ]
}

/// The plain arguments of the benchmark tool.
pub fn positionals(args: &[String]) -> (r: Vec<String>)
    ensures
        text::views(r@) == plain_from(text::views(args@), bench_flags(), 2),
{
    let flags: Vec<String> = vec![
        "--iters".to_owned(),
        "--seed".to_owned(),
        "--tensors".to_owned(),
        "--large".to_owned(),
        "--depth".to_owned(),
        "--chunk-mb".to_owned(),
        "--repeat".to_owned(),
        "--block".to_owned(),
        "--gap".to_owned(),
    ];
    assert(text::views(flags@) =~= bench_flags());
    plain_arguments(args, &flags, 2)
}

/// The flags of the bundle tool that take a value.
pub open spec fn bundle_flags() -> Seq<Seq<char>> {
    seq!["--group"@, "--max-rel"@, "--top"@]
}

/// The `n`-th plain argument of the bundle tool.
pub fn positional(args: &[String], n: usize) -> (r: Option<String>)
    ensures
        ({
            let plain = plain_from(text::views(args@), bundle_flags(), 2);
            if n < plain.len() {
                r is Some && r->Some_0@ == plain[n as int]
            } else {
                r is None
            }
        }),
{
    let flags: Vec<String> = vec![
        "--group".to_owned(),
        "--max-rel".to_owned(),
        "--top".to_owned(),
    ];
    assert(text::views(flags@) =~= bundle_flags());
    let plain: Vec<String> = plain_arguments(args, &flags, 2);
    assert(text::views(plain@).len() == plain@.len());
    if n < plain.len() {
        assert(text::views(plain@)[n as int] == plain@[n as int]@);
        Some(plain[n].clone())
    } else {
        None
    }
}

/// The first argument from the `i`-th on that is not a flag.
pub open spec fn first_plain(args: Seq<Seq<char>>, i: int) -> Option<Seq<char>>
    decreases args.len() - i,
{
    if i >= args.len() {
        None
    } else if text::starts_with(args[i], "--"@) {
        first_plain(args, i + 1)
    } else {
        Some(args[i])
    }
}

/// The first argument after the program's name that is not a flag.
pub fn first_argument<'a>(args: &'a [String]) -> (r: Option<&'a str>)
    ensures
        match first_plain(text::views(args@), 1) {
            Some(a) => r is Some && r->Some_0@ == a,
            None => r is None,
        },
{
    let ghost all = text::views(args@);
    let mut i: usize = 1;
    while i < args.len()
        invariant
            all == text::views(args@),
            first_plain(all, 1) == first_plain(all, i as int),
        decreases args.len() - i,
    {
        if !text::str_starts_with(args[i].as_str(), "--") {
            return Some(args[i].as_str());
        }
        i += 1;
    }
    None
}

/// All arguments after the program's name that are not flags.
pub fn plain_only(args: &[String]) -> (r: Vec<String>)
    ensures
        text::views(r@) == plain_from(text::views(args@), Seq::empty(), 1),
{
    let flags: Vec<String> = Vec::new();
    assert(text::views(flags@) =~= Seq::empty());
    plain_arguments(args, &flags, 1)
}

/// What the read benchmark is asked to do.
#[derive(Debug, Clone, Copy)]
pub struct ReadOptions {
    pub block: usize,
    pub gap: u64,
    pub depth: usize,
    pub chunk_mb: usize,
    pub repeat: usize,
    pub buffered: bool,
    pub cold: bool,
    pub per_tensor: bool,
}

/// Reads the options of the read benchmark.
pub fn read_options(args: &[String]) -> (r: ReadOptions)
    ensures
        ({
            let a = text::views(args@);
            let most = usize::MAX as u64;
            &&& r.block == number_of(a, "--block"@, 4096, most)
            &&& r.gap == number_of(a, "--gap"@, 0, u64::MAX)
            &&& r.depth == number_of(a, "--depth"@, 32, most)
            &&& r.chunk_mb == number_of(a, "--chunk-mb"@, 1, most)
            &&& r.repeat == number_of(a, "--repeat"@, 1, most)
            &&& r.buffered == (a.contains("--buffered"@) || a.contains("--no-direct"@)
                || a.contains("--no-mmap"@))
            &&& r.cold == a.contains("--cold"@)
            &&& r.per_tensor == a.contains("--per-tensor"@)
        }),
{
    ReadOptions {
        block: num_size(args, "--block", 4096),
        gap: num(args, "--gap", 0, u64::MAX),
        depth: num_size(args, "--depth", 32),
        chunk_mb: num_size(args, "--chunk-mb", 1),
        repeat: num_size(args, "--repeat", 1),
        buffered: has(args, "--buffered") || has(args, "--no-direct") || has(args, "--no-mmap"),
        cold: has(args, "--cold"),
        per_tensor: has(args, "--per-tensor"),
    }
}

impl ReadOptions {
    /// The bytes of a request, if so many can be counted.
    pub fn chunk_bytes(&self) -> (r: Option<usize>)
        ensures
            r == (if self.chunk_mb * 0x10_0000 <= usize::MAX {
                Some((self.chunk_mb * 0x10_0000) as usize)
            } else {
                None
            }),
    {
        self.chunk_mb.checked_mul(0x10_0000)
    }

    /// Whether each run starts by dropping the page cache.
    pub fn drops_cache(&self) -> (r: bool)
        ensures
            r == (self.cold || self.repeat > 1),
    {
        self.cold || self.repeat > 1
    }

    /// Whether run number `i`, counted from 0, tells how much is still cached.
    pub fn tells_residency(&self, i: usize) -> (r: bool)
        ensures
            r == ((self.cold || self.repeat > 1) && (i == 0 || self.cold)),
    {
        self.drops_cache() && (i == 0 || self.cold)
    }
}

proof fn place_is_the_first(args: Seq<Seq<char>>, name: Seq<char>, i: int, k: int)
    requires
        0 <= i <= k <= args.len(),
        forall|j: int| i <= j < k ==> #[trigger] args[j] != name,
        k < args.len() ==> args[k] == name,
    ensures
        place_of(args, name, i) == k,
    decreases k - i,
{
    if i < k {
        assert(args[i] != name);
        place_is_the_first(args, name, i + 1, k);
    }
}

/// A flag has the value that stands right behind the first place where the flag stands;
/// a flag that is not given, or that stands last, has none.
pub proof fn value_follows_the_first_flag(args: Seq<Seq<char>>, name: Seq<char>, k: int)
    requires
        0 <= k < args.len(),
        forall|j: int| 0 <= j < k ==> #[trigger] args[j] != name,
    ensures
        args[k] == name && k + 1 < args.len() ==> value_of(args, name) == Some(args[k + 1]),
        args[k] == name && k + 1 == args.len() ==> value_of(args, name) is None,
        !args.contains(name) ==> value_of(args, name) is None,
{
    if args[k] == name {
        place_is_the_first(args, name, 0, k);
    }
    if !args.contains(name) {
        assert forall|j: int| 0 <= j < args.len() implies #[trigger] args[j] != name by {
            assert(args.contains(args[j]));
        }
        place_is_the_first(args, name, 0, args.len() as int);
    }
}

/// A number given as its numeral is taken, if it is allowed; one that is too large, or
/// none, leaves the default.
pub proof fn number_is_the_numeral(
    args: Seq<Seq<char>>,
    name: Seq<char>,
    default: u64,
    max: u64,
    n: u64,
)
    ensures
        value_of(args, name) == Some(text::decimal(n as nat)) && n <= max ==> number_of(
            args,
            name,
            default,
            max,
        ) == n,
        value_of(args, name) == Some(text::decimal(n as nat)) && n > max ==> number_of(
            args,
            name,
            default,
            max,
        ) == default,
        value_of(args, name) is None ==> number_of(args, name, default, max) == default,
{
    text::decimal_reads_back(n as nat);
    assert(text::numeral(text::decimal(n as nat), u64::MAX as nat) == Some(n as nat));
}

proof fn plain_from_the_front(args: Seq<Seq<char>>, flags: Seq<Seq<char>>, i: int, k: int)
    requires
        0 <= i,
        0 <= k <= args.len(),
    ensures
        plain_from(args.skip(k), flags, i) == plain_from(args, flags, i + k),
    decreases args.len() + 1 - i,
{
    let rest = args.skip(k);
    if i < rest.len() {
        assert(rest[i] == args[i + k]);
        plain_from_the_front(args, flags, i + 1, k);
        if i + 1 <= rest.len() {
            plain_from_the_front(args, flags, i + 2, k);
        }
    }
}

/// What is left of arguments is what is left of those behind the first: that stays in
/// front if it is plain, goes alone if it is a flag without a value, and goes with what
/// follows it if it takes a value.
pub proof fn flags_go_with_their_values(
    first: Seq<char>,
    value: Seq<char>,
    rest: Seq<Seq<char>>,
    flags: Seq<Seq<char>>,
)
    ensures
        !text::starts_with(first, "--"@) ==> plain_from(seq![first] + rest, flags, 0) == seq![first]
            + plain_from(rest, flags, 0),
        text::starts_with(first, "--"@) && !flags.contains(first) ==> plain_from(
            seq![first] + rest,
            flags,
            0,
        ) == plain_from(rest, flags, 0),
        text::starts_with(first, "--"@) && flags.contains(first) ==> plain_from(
            seq![first, value] + rest,
            flags,
            0,
        ) == plain_from(rest, flags, 0),
        plain_from(Seq::empty(), flags, 0).len() == 0,
{
    let one = seq![first] + rest;
    let two = seq![first, value] + rest;
    plain_from_the_front(one, flags, 0, 1);
    plain_from_the_front(two, flags, 0, 2);
    assert(one.skip(1) =~= rest);
    assert(two.skip(2) =~= rest);
    assert(one[0] == first && two[0] == first);
}

/// Arguments before the `start`-th do not matter.
pub proof fn plain_arguments_start_where_told(
    args: Seq<Seq<char>>,
    flags: Seq<Seq<char>>,
    start: int,
)
    requires
        0 <= start <= args.len(),
    ensures
        plain_from(args, flags, start) == plain_from(args.skip(start), flags, 0),
{
    plain_from_the_front(args, flags, 0, start);
}

/// The first plain argument is one that does not start with two dashes, where all before
/// it from the `i`-th on do.
pub proof fn first_plain_is_the_first(args: Seq<Seq<char>>, i: int)
    requires
        0 <= i,
    ensures
        match first_plain(args, i) {
            Some(a) => exists|k: int| #[trigger] is_first_plain(args, i, k) && args[k] == a,
            None => forall|k: int|
                i <= k < args.len() ==> text::starts_with(#[trigger] args[k], "--"@),
        },
    decreases args.len() - i,
{
    if i < args.len() {
        if text::starts_with(args[i], "--"@) {
            first_plain_is_the_first(args, i + 1);
            if first_plain(args, i + 1) is Some {
                let a = first_plain(args, i + 1)->Some_0;
                let k = choose|k: int| #[trigger]
                    is_first_plain(args, i + 1, k) && args[k] == a;
                assert(is_first_plain(args, i, k));
            }
        } else {
            assert(is_first_plain(args, i, i));
        }
    }
}

/// The argument at `k` is the first from the `i`-th on that does not start with two dashes.
pub open spec fn is_first_plain(args: Seq<Seq<char>>, i: int, k: int) -> bool {
    &&& i <= k < args.len()
    &&& !text::starts_with(args[k], "--"@)
    &&& forall|j: int| i <= j < k ==> text::starts_with(#[trigger] args[j], "--"@)
}

/// The options of the benchmark tool that are followed by a number are not plain arguments,
/// nor are their numbers, and so for the bundle tool.
pub proof fn options_take_their_values()
    ensures
        bench_flags().contains("--iters"@),
        bench_flags().contains("--seed"@),
        bench_flags().contains("--tensors"@),
        bench_flags().contains("--large"@),
        bench_flags().contains("--depth"@),
        bench_flags().contains("--chunk-mb"@),
        bench_flags().contains("--repeat"@),
        bench_flags().contains("--block"@),
        bench_flags().contains("--gap"@),
        bench_flags().len() == 9,
        bundle_flags().contains("--group"@),
        bundle_flags().contains("--max-rel"@),
        bundle_flags().contains("--top"@),
        bundle_flags().len() == 3,
{
    let b = bench_flags();
    assert(b[0] == "--iters"@ && b[1] == "--seed"@ && b[2] == "--tensors"@ && b[3] == "--large"@);
    assert(b[4] == "--depth"@ && b[5] == "--chunk-mb"@ && b[6] == "--repeat"@);
    assert(b[7] == "--block"@ && b[8] == "--gap"@);
    let c = bundle_flags();
    assert(c[0] == "--group"@ && c[1] == "--max-rel"@ && c[2] == "--top"@);
}

} // verus!
