use vstd::prelude::*;
use vstd::std_specs::iter::IteratorSpec;
use vstd::string::StringExecFns;

verus! {

/// What reading the first `n` characters of `text` has found: the lines that have
/// ended, the empty ones apart, and the characters of the line that has not.
pub open spec fn lines_read(text: Seq<char>, n: nat) -> (Seq<Seq<char>>, Seq<char>)
    decreases n,
{
    if n == 0 {
        (Seq::empty(), Seq::empty())
    } else {
        let (done, line) = lines_read(text, (n - 1) as nat);
        if text[n - 1] == '\n' {
            if line.len() > 0 {
                (done.push(line), Seq::empty())
            } else {
                (done, Seq::empty())
            }
        } else {
            (done, line.push(text[n - 1]))
        }
    }
}

/// The lines of `text`, the empty ones apart: what stands between two line feeds,
/// before the first and after the last.
pub open spec fn lines_of(text: Seq<char>) -> Seq<Seq<char>> {
    let (done, line) = lines_read(text, text.len());
    if line.len() > 0 {
        done.push(line)
    } else {
        done
    }
}

/// The contents of a sequence of strings, one by one.
pub open spec fn texts(lines: Seq<String>) -> Seq<Seq<char>> {
    Seq::new(lines.len(), |i: int| lines[i]@)
}

/// The first `n` of `lines`, each followed by a line feed.
pub open spec fn joined(lines: Seq<Seq<char>>, n: nat) -> Seq<char>
    decreases n,
{
    if n == 0 {
        Seq::empty()
    } else {
        joined(lines, (n - 1) as nat) + lines[n - 1] + seq!['\n']
    }
}

/// Whether a line can stand in a text: it is not empty and holds no line feed.
pub open spec fn is_line(line: Seq<char>) -> bool {
    line.len() > 0 && forall|i: int| 0 <= i < line.len() ==> line[i] != '\n'
}

/// The lines of `text`, the empty ones apart.
pub fn lines(text: &str) -> (r: Vec<String>)
    ensures
        texts(r@) == lines_of(text@),
{
    broadcast use vstd::string::axiom_spec_iter, vstd::string::next_postcondition;

    let mut done: Vec<String> = Vec::new();
    let mut line = String::new();
    let mut rest = text.chars();
    let ghost mut i: nat = 0;
    assert(texts(done@) =~= Seq::empty());
    assert(text@.skip(0) =~= text@);
    loop
        invariant_except_break
            i <= text@.len(),
            rest.remaining() == text@.skip(i as int),
            (texts(done@), line@) == lines_read(text@, i),
        ensures
            (texts(done@), line@) == lines_read(text@, text@.len()),
        decreases text@.len() - i,
    {
        let ghost before = texts(done@);
        let ghost left = rest.remaining();
        match rest.next() {
            Some(c) => {
                proof {
                    assert(left.len() > 0);
                    assert(c == text@[i as int]);
                    assert(left.drop_first() =~= text@.skip(i as int + 1));
                    i = i + 1;
                }
                if c == '\n' {
                    if !line.as_str().is_empty() {
                        let ghost ended = line@;
                        done.push(line);
                        assert(texts(done@) =~= before.push(ended));
                    }
                    line = String::new();
                } else {
                    line.push(c);
                }
            },
            None => {
                proof {
                    assert(left.len() == 0);
                    assert(i == text@.len());
                }
                break ;
            },
        }
    }
    if !line.as_str().is_empty() {
        let ghost before = texts(done@);
        let ghost ended = line@;
        done.push(line);
        assert(texts(done@) =~= before.push(ended));
    }
    done
}

/// The text made of `lines`, each followed by a line feed.
pub fn join_lines(lines: &Vec<String>) -> (text: String)
    ensures
        text@ == joined(texts(lines@), lines@.len()),
{
    let mut res = String::new();
    let mut i: usize = 0;
    while i < lines.len()
        invariant
            i <= lines@.len(),
            res@ == joined(texts(lines@), i as nat),
        decreases lines@.len() - i,
    {
        res.append(lines[i].as_str());
        res.push('\n');
        assert(res@ =~= joined(texts(lines@), i as nat) + texts(lines@)[i as int] + seq!['\n']);
        i = i + 1;
    }
    res
}

/// The lines that reading finds are lines: none is empty and none holds a line
/// feed; the line that has not ended holds none either.
pub proof fn lemma_lines_read_are_lines(text: Seq<char>, n: nat)
    requires
        n <= text.len(),
    ensures
        forall|i: int|
            0 <= i < lines_read(text, n).0.len() ==> is_line(#[trigger] lines_read(text, n).0[i]),
        forall|i: int|
            0 <= i < lines_read(text, n).1.len() ==> #[trigger] lines_read(text, n).1[i] != '\n',
    decreases n,
{
    if n > 0 {
        lemma_lines_read_are_lines(text, (n - 1) as nat);
        let (done, line) = lines_read(text, (n - 1) as nat);
        let (done1, line1) = lines_read(text, n);
        assert forall|i: int| 0 <= i < done1.len() implies is_line(#[trigger] done1[i]) by {
            if i < done.len() {
                assert(done1[i] == done[i]);
            } else {
                assert(done1[i] == line);
            }
        }
        assert forall|i: int| 0 <= i < line1.len() implies #[trigger] line1[i] != '\n' by {
            if i < line.len() {
                assert(line1[i] == line[i]);
            }
        }
    }
}

/// Every line of a text is a line: not empty, and without a line feed.
pub proof fn lemma_lines_of_are_lines(text: Seq<char>)
    ensures
        forall|i: int| 0 <= i < lines_of(text).len() ==> is_line(#[trigger] lines_of(text)[i]),
{
    lemma_lines_read_are_lines(text, text.len());
}

/// What reading the first characters finds depends on these characters alone.
pub proof fn lemma_lines_read_prefix(first: Seq<char>, second: Seq<char>, n: nat)
    requires
        n <= first.len(),
        n <= second.len(),
        forall|i: int| 0 <= i < n ==> first[i] == second[i],
    ensures
        lines_read(first, n) == lines_read(second, n),
    decreases n,
{
    if n > 0 {
        lemma_lines_read_prefix(first, second, (n - 1) as nat);
    }
}

/// Reading a text that ended with a line feed, and then the first characters of
/// one more line, finds the lines of the text and these characters.
pub proof fn lemma_lines_read_line(text: Seq<char>, line: Seq<char>, j: nat)
    requires
        lines_read(text, text.len()).1.len() == 0,
        is_line(line),
        j <= line.len(),
    ensures
        lines_read(text + line + seq!['\n'], text.len() + j) == (
            lines_read(text, text.len()).0,
            line.take(j as int),
        ),
    decreases j,
{
    let all = text + line + seq!['\n'];
    if j == 0 {
        lemma_lines_read_prefix(all, text, text.len());
        assert(line.take(0) =~= Seq::empty());
    } else {
        lemma_lines_read_line(text, line, (j - 1) as nat);
        assert(all[text.len() + j - 1] == line[j - 1]);
        assert(line.take(j as int) =~= line.take(j - 1).push(line[j - 1]));
    }
}

/// The lines of a text made of lines, each followed by a line feed, are these
/// lines.
pub proof fn lemma_lines_of_joined(lines: Seq<Seq<char>>, n: nat)
    requires
        n <= lines.len(),
        forall|i: int| 0 <= i < lines.len() ==> is_line(#[trigger] lines[i]),
    ensures
        lines_read(joined(lines, n), joined(lines, n).len()) == (
            lines.take(n as int),
            Seq::<char>::empty(),
        ),
        lines_of(joined(lines, n)) == lines.take(n as int),
    decreases n,
{
    if n == 0 {
        assert(lines.take(0) =~= Seq::empty());
    } else {
        let m = (n - 1) as nat;
        lemma_lines_of_joined(lines, m);
        let text = joined(lines, m);
        let line = lines[n - 1];
        let all = text + line + seq!['\n'];
        assert(is_line(line));
        lemma_lines_read_line(text, line, line.len());
        assert(line.take(line.len() as int) =~= line);
        assert(all.len() == text.len() + line.len() + 1);
        assert(all[all.len() - 1] == '\n');
        assert(lines.take(n as int) =~= lines.take(m as int).push(line));
    }
}

} // verus!
