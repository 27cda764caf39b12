//! The command line of the generator.
use vstd::prelude::*;
use crate::error::{Error, ErrorView};
use crate::order::{sorted, string_views, views};
use crate::snapshot::is_valid_id;
use crate::text::starts_with;

verus! {

/// What the generator is asked to do.
#[derive(Debug, PartialEq, Eq)]
pub enum Command {
    Discover,
    Fetch(Selection),
    Update(Selection),
    Generate,
    Check,
}

/// The registry groups that a fetch concerns.
#[derive(Debug, PartialEq, Eq)]
pub enum Selection {
    /// Every group that the IANA index links to.
    All,
    /// The named groups, sorted, each once.
    Groups(Vec<String>),
}

pub enum SelectionView {
    All,
    Groups(Seq<Seq<char>>),
}

pub enum CommandView {
    Discover,
    Fetch(SelectionView),
    Update(SelectionView),
    Generate,
    Check,
}

impl View for Selection {
    type V = SelectionView;

    open spec fn view(&self) -> SelectionView {
        match self {
            Selection::All => SelectionView::All,
            Selection::Groups(g) => SelectionView::Groups(string_views(g@)),
        }
    }
}

impl View for Command {
    type V = CommandView;

    open spec fn view(&self) -> CommandView {
        match self {
            Command::Discover => CommandView::Discover,
            Command::Fetch(s) => CommandView::Fetch(s@),
            Command::Update(s) => CommandView::Update(s@),
            Command::Generate => CommandView::Generate,
            Command::Check => CommandView::Check,
        }
    }
}

/// The distinct elements of `s`, in increasing order.
pub open spec fn sorted_distinct(s: Seq<Seq<char>>) -> Seq<Seq<char>> {
    choose|v: Seq<Seq<char>>| sorted(v) && forall|x: Seq<char>| v.contains(x) <==> s.contains(x)
}

/// The first group argument that is refused, and why.
pub open spec fn group_error(args: Seq<Seq<char>>) -> Option<ErrorView>
    decreases args.len(),
{
    if args.len() == 0 {
        None
    } else if starts_with(args[0], seq!['-']) {
        Some(ErrorView::Usage)
    } else if !is_valid_id(args[0]) {
        Some(ErrorView::InvalidGroupId(args[0]))
    } else {
        group_error(args.drop_first())
    }
}

pub open spec fn all_flag() -> Seq<char> {
    seq!['-', '-', 'a', 'l', 'l']
}

/// The selection that the group arguments name.
pub open spec fn selection_of(args: Seq<Seq<char>>) -> Result<SelectionView, ErrorView> {
    if args.len() == 0 || (args.len() == 1 && args[0] == all_flag()) {
        Ok(SelectionView::All)
    } else {
        match group_error(args) {
            Some(e) => Err(e),
            None => Ok(SelectionView::Groups(sorted_distinct(args))),
        }
    }
}

pub open spec fn word_iana() -> Seq<char> { seq!['i', 'a', 'n', 'a'] }
pub open spec fn word_discover() -> Seq<char> { seq!['d', 'i', 's', 'c', 'o', 'v', 'e', 'r'] }
pub open spec fn word_generate() -> Seq<char> { seq!['g', 'e', 'n', 'e', 'r', 'a', 't', 'e'] }
pub open spec fn word_check() -> Seq<char> { seq!['c', 'h', 'e', 'c', 'k'] }
pub open spec fn word_fetch() -> Seq<char> { seq!['f', 'e', 't', 'c', 'h'] }
pub open spec fn word_update() -> Seq<char> { seq!['u', 'p', 'd', 'a', 't', 'e'] }

/// The command that the arguments (without the program name) name.
pub open spec fn command_of(args: Seq<Seq<char>>) -> Result<CommandView, ErrorView> {
    if args.len() >= 2 && args[0] == word_iana() {
        if args.len() == 2 && args[1] == word_discover() {
            Ok(CommandView::Discover)
        } else if args.len() == 2 && args[1] == word_generate() {
            Ok(CommandView::Generate)
        } else if args.len() == 2 && args[1] == word_check() {
            Ok(CommandView::Check)
        } else if args[1] == word_fetch() {
            match selection_of(args.skip(2)) {
                Ok(s) => Ok(CommandView::Fetch(s)),
                Err(e) => Err(e),
            }
        } else if args[1] == word_update() {
            match selection_of(args.skip(2)) {
                Ok(s) => Ok(CommandView::Update(s)),
                Err(e) => Err(e),
            }
        } else {
            Err(ErrorView::Usage)
        }
    } else {
        Err(ErrorView::Usage)
    }
}

impl Selection {
    /// Parses the group arguments: none or `--all` select every group;
    /// otherwise each must be a group ID, and the result lists them sorted
    /// and without repetition.
    pub fn parse(args: &[String]) -> (res: Result<Selection, Error>)
        ensures
            match res {
                Ok(s) => selection_of(string_views(args@)) == Ok::<SelectionView, ErrorView>(s@),
                Err(e) => selection_of(string_views(args@)) == Err::<SelectionView, ErrorView>(e@),
            },
            // Named groups come out in increasing order, each once, each a
            // valid group ID, and they are the groups named.
            res matches Ok(Selection::Groups(g)) ==> {
                &&& sorted(string_views(g@))
                &&& forall|x: Seq<char>| string_views(g@).contains(x) <==> string_views(args@).contains(x)
                &&& forall|k: int| 0 <= k < g@.len() ==> is_valid_id(#[trigger] g@[k]@)
            },
    {
        let ghost a = string_views(args@);
        let flag: [char; 5] = ['-', '-', 'a', 'l', 'l'];
        proof { assert(flag@ == all_flag()); }
        if args.len() == 0 {
            return Ok(Selection::All);
        }
        if args.len() == 1 {
            let only = crate::text::chars_of(args[0].as_str());
            if crate::text::chars_eq(&only, &flag) {
                proof { assert(a[0] == all_flag()); }
                return Ok(Selection::All);
            }
        }
        let dash: [char; 1] = ['-'];
        proof { assert(dash@ == seq!['-']); }
        let mut groups: Vec<Vec<char>> = Vec::new();
        let mut i: usize = 0;
        proof {
            assert(a.skip(0) == a);
            assert(views(groups@) =~= Seq::<Seq<char>>::empty());
        }
        while i < args.len()
            invariant
                a == string_views(args@),
                !(a.len() == 0 || (a.len() == 1 && a[0] == all_flag())),
                i <= args@.len(),
                dash@ == seq!['-'],
                group_error(a) == group_error(a.skip(i as int)),
                sorted(views(groups@)),
                forall|x: Seq<char>| views(groups@).contains(x) <==> a.take(i as int).contains(x),
                forall|k: int| 0 <= k < i ==> is_valid_id(#[trigger] a[k]),
            decreases args@.len() - i,
        {
            let g = crate::text::chars_of(args[i].as_str());
            proof {
                assert(a.skip(i as int)[0] == g@);
                assert(a.skip(i as int).drop_first() == a.skip(i + 1));
            }
            if crate::text::starts_with_exec(&g, &dash) {
                return Err(Error::Usage);
            }
            if !crate::snapshot::is_valid_id_exec(&g) {
                return Err(Error::InvalidGroupId(crate::text::string_of(&g)));
            }
            let ghost gv = g@;
            let ghost old_groups = views(groups@);
            crate::order::insert_sorted(&mut groups, g);
            proof {
                assert(a.take(i + 1) == a.take(i as int).push(gv));
                assert forall|x: Seq<char>| views(groups@).contains(x) <==> a.take(i + 1).contains(x) by {
                    let t0 = a.take(i as int);
                    let t1 = a.take(i + 1);
                    assert(views(groups@).contains(x) <==> (old_groups.contains(x) || x == gv));
                    assert(old_groups.contains(x) <==> t0.contains(x));
                    if x == gv {
                        assert(t1[i as int] == x);
                    }
                    if t0.contains(x) {
                        let k = choose|k: int| 0 <= k < t0.len() && t0[k] == x;
                        assert(t1[k] == x);
                    }
                    if t1.contains(x) {
                        let k = choose|k: int| 0 <= k < t1.len() && t1[k] == x;
                        if k < i {
                            assert(t0[k] == x);
                        }
                    }
                }
            }
            i += 1;
        }
        let result = crate::order::strings_of(&groups);
        proof {
            assert(a.take(a.len() as int) == a);
            assert(a.skip(a.len() as int).len() == 0);
            let chosen = sorted_distinct(a);
            assert(sorted(views(groups@)) && forall|x: Seq<char>| views(groups@).contains(x) <==> a.contains(x));
            crate::order::lemma_sorted_unique(chosen, views(groups@));
            assert(string_views(result@) == views(groups@));
            assert forall|k: int| 0 <= k < result@.len() implies is_valid_id(#[trigger] result@[k]@) by {
                assert(string_views(result@)[k] == result@[k]@);
                assert(views(groups@).contains(result@[k]@));
                let m = choose|m: int| 0 <= m < a.len() && a[m] == result@[k]@;
            }
        }
        Ok(Selection::Groups(result))
    }
}

impl Command {
    /// Parses the arguments that follow the program name.
    pub fn parse(args: Vec<String>) -> (res: Result<Command, Error>)
        ensures
            match res {
                Ok(c) => command_of(string_views(args@)) == Ok::<CommandView, ErrorView>(c@),
                Err(e) => command_of(string_views(args@)) == Err::<CommandView, ErrorView>(e@),
            },
    {
        let ghost a = string_views(args@);
        if args.len() < 2 {
            return Err(Error::Usage);
        }
        let w0 = crate::text::chars_of(args[0].as_str());
        let w1 = crate::text::chars_of(args[1].as_str());
        proof { assert(w0@ == a[0] && w1@ == a[1]); }
        let iana: [char; 4] = ['i', 'a', 'n', 'a'];
        let discover: [char; 8] = ['d', 'i', 's', 'c', 'o', 'v', 'e', 'r'];
        let generate: [char; 8] = ['g', 'e', 'n', 'e', 'r', 'a', 't', 'e'];
        let check: [char; 5] = ['c', 'h', 'e', 'c', 'k'];
        let fetch: [char; 5] = ['f', 'e', 't', 'c', 'h'];
        let update: [char; 6] = ['u', 'p', 'd', 'a', 't', 'e'];
        proof {
            assert(iana@ == word_iana());
            assert(discover@ == word_discover());
            assert(generate@ == word_generate());
            assert(check@ == word_check());
            assert(fetch@ == word_fetch());
            assert(update@ == word_update());
        }
        if !crate::text::chars_eq(&w0, &iana) {
            return Err(Error::Usage);
        }
        let two = args.len() == 2;
        if two && crate::text::chars_eq(&w1, &discover) {
            return Ok(Command::Discover);
        }
        if two && crate::text::chars_eq(&w1, &generate) {
            return Ok(Command::Generate);
        }
        if two && crate::text::chars_eq(&w1, &check) {
            return Ok(Command::Check);
        }
        let is_fetch = crate::text::chars_eq(&w1, &fetch);
        let is_update = crate::text::chars_eq(&w1, &update);
        if !is_fetch && !is_update {
            return Err(Error::Usage);
        }
        let rest = args_after_two(&args);
        proof { assert(string_views(rest@) == a.skip(2)); }
        let selection = Selection::parse(&rest)?;
        if is_fetch {
            Ok(Command::Fetch(selection))
        } else {
            Ok(Command::Update(selection))
        }
    }
}

/// The arguments from the third on.
fn args_after_two(args: &Vec<String>) -> (r: Vec<String>)
    requires
        args@.len() >= 2,
    ensures
        string_views(r@) == string_views(args@).skip(2),
{
    let mut r: Vec<String> = Vec::new();
    let mut i: usize = 2;
    while i < args.len()
        invariant
            2 <= i <= args@.len(),
            string_views(r@) == string_views(args@).subrange(2, i as int),
        decreases args@.len() - i,
    {
        let s = args[i].clone();
        let ghost before = r@;
        r.push(s);
        proof {
            assert(s@ == args@[i as int]@);
            assert(r@ == before.push(s));
            assert(string_views(before.push(s)) =~= string_views(before).push(s@));
            assert(string_views(args@).subrange(2, i + 1) =~= string_views(args@).subrange(2, i as int).push(args@[i as int]@));
            assert(string_views(r@) =~= string_views(args@).subrange(2, i + 1));
        }
        i += 1;
    }
    r
}

} // verus!
