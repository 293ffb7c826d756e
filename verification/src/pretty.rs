use vstd::prelude::*;
use vstd::string::*;

verus! {

/// A document: text with places where a line may end.
#[derive(Debug, PartialEq)]
pub enum Document {
    /// Nothing.
    Nil,
    /// A place where the line may end. It shows `unbroken` where the enclosing group fits on
    /// the line, and `broken` followed by a new line where it does not.
    Break { broken: String, unbroken: String },
    /// Two documents, one after the other.
    Cons(Box<Document>, Box<Document>),
    /// A document whose new lines start that many columns further right.
    Nest(usize, Box<Document>),
    /// A document that is laid out on one line if it fits there.
    Group(Box<Document>),
    /// Text, shown as it is.
    Text(String),
}

/// The mathematical value of a [`Document`].
pub enum Doc {
    Nil,
    Break { broken: Seq<char>, unbroken: Seq<char> },
    Cons(Box<Doc>, Box<Doc>),
    Nest(nat, Box<Doc>),
    Group(Box<Doc>),
    Text(Seq<char>),
}

/// The value of a document.
pub open spec fn doc_of(d: Document) -> Doc
    decreases d,
{
    match d {
        Document::Nil => Doc::Nil,
        Document::Break { broken, unbroken } => Doc::Break { broken: broken@, unbroken: unbroken@ },
        Document::Cons(left, right) => Doc::Cons(Box::new(doc_of(*left)), Box::new(doc_of(*right))),
        Document::Nest(by, inner) => Doc::Nest(by as nat, Box::new(doc_of(*inner))),
        Document::Group(inner) => Doc::Group(Box::new(doc_of(*inner))),
        Document::Text(s) => Doc::Text(s@),
    }
}

impl View for Document {
    type V = Doc;

    open spec fn view(&self) -> Doc {
        doc_of(*self)
    }
}

/// The values of a list of documents.
pub open spec fn docs_of(ds: Seq<Document>) -> Seq<Doc> {
    Seq::new(ds.len(), |i: int| doc_of(ds[i]))
}

/// The text of a document laid out on one line.
pub open spec fn flat(d: Doc) -> Seq<char>
    decreases d,
{
    match d {
        Doc::Nil => Seq::empty(),
        Doc::Break { unbroken, .. } => unbroken,
        Doc::Cons(left, right) => flat(*left) + flat(*right),
        Doc::Nest(_, inner) => flat(*inner),
        Doc::Group(inner) => flat(*inner),
        Doc::Text(s) => s,
    }
}

/// `n` blanks.
pub open spec fn blanks(n: nat) -> Seq<char> {
    Seq::new(n, |i: int| ' ')
}

/// `a + b`, or the largest machine value where the sum is above it. Columns and
/// indentations are counted this way.
pub open spec fn capped(a: nat, b: nat) -> nat {
    if a + b > usize::MAX {
        usize::MAX as nat
    } else {
        a + b
    }
}

/// A group fits where the column it starts at and its text on one line stay within the limit.
pub open spec fn fits_line(d: Doc, limit: nat, col: nat) -> bool {
    col + flat(d).len() <= limit
}

/// The text that `d` adds to a line that has reached column `col`, and the column reached
/// after it. `broken` says whether the places where a line may end do end it; `indent` is
/// the column at which a new line starts.
pub open spec fn render(d: Doc, limit: nat, indent: nat, broken: bool, col: nat) -> (Seq<char>, nat)
    decreases d,
{
    match d {
        Doc::Nil => (Seq::empty(), col),
        Doc::Break { broken: b, unbroken: u } => if broken {
            (b + seq!['\n'] + blanks(indent), indent)
        } else {
            (u, capped(col, u.len()))
        },
        Doc::Cons(left, right) => {
            let first = render(*left, limit, indent, broken, col);
            let second = render(*right, limit, indent, broken, first.1);
            (first.0 + second.0, second.1)
        },
        Doc::Nest(by, inner) => render(*inner, limit, capped(indent, by), broken, col),
        Doc::Group(inner) => render(*inner, limit, indent, !fits_line(*inner, limit, col), col),
        Doc::Text(s) => (s, capped(col, s.len())),
    }
}

/// The text of `d` for lines of at most `limit` columns: the whole of `d` is one group.
pub open spec fn layout(d: Doc, limit: nat) -> Seq<char> {
    render(Doc::Group(Box::new(d)), limit, 0, false, 0).0
}

/// The documents of `ds` in order, followed by `tail`.
pub open spec fn join(ds: Seq<Doc>, tail: Doc) -> Doc
    decreases ds.len(),
{
    if ds.len() == 0 {
        tail
    } else {
        join(ds.drop_last(), Doc::Cons(Box::new(ds.last()), Box::new(tail)))
    }
}

/// `ds` with `sep` between each two neighbours.
pub open spec fn interspersed(ds: Seq<Doc>, sep: Doc) -> Seq<Doc> {
    Seq::new(
        if ds.len() == 0 {
            0nat
        } else {
            (2 * ds.len() - 1) as nat
        },
        |i: int|
            if i % 2 == 0 {
                ds[i / 2]
            } else {
                sep
            },
    )
}

/// A copy of a document.
pub fn clone_document(d: &Document) -> (res: Document)
    ensures
        res@ == d@,
    decreases d,
{
    match d {
        Document::Nil => Document::Nil,
        Document::Break { broken, unbroken } => Document::Break {
            broken: broken.clone(),
            unbroken: unbroken.clone(),
        },
        Document::Cons(left, right) => Document::Cons(
            Box::new(clone_document(left)),
            Box::new(clone_document(right)),
        ),
        Document::Nest(by, inner) => Document::Nest(*by, Box::new(clone_document(inner))),
        Document::Group(inner) => Document::Group(Box::new(clone_document(inner))),
        Document::Text(s) => Document::Text(s.clone()),
    }
}

impl Clone for Document {
    fn clone(&self) -> (res: Self)
        ensures
            res@ == self@,
    {
        clone_document(self)
    }
}

/// The document that shows `s`.
pub fn text(s: &str) -> (d: Document)
    ensures
        d@ == Doc::Text(s@),
{
    Document::Text(String::from_str(s))
}

/// A place where the line may end.
pub fn break_(broken: &str, unbroken: &str) -> (d: Document)
    ensures
        d@ == (Doc::Break { broken: broken@, unbroken: unbroken@ }),
{
    Document::Break { broken: String::from_str(broken), unbroken: String::from_str(unbroken) }
}

/// The documents of `docs`, one after the other.
pub fn join_docs(docs: Vec<Document>) -> (d: Document)
    ensures
        d@ == join(docs_of(docs@), Doc::Nil),
{
    let mut docs = docs;
    let ghost all = docs_of(docs@);
    let mut d = Document::Nil;
    while docs.len() > 0
        invariant
            join(docs_of(docs@), d@) == join(all, Doc::Nil),
        decreases docs.len(),
    {
        let ghost before = docs_of(docs@);
        let last = docs.pop().unwrap();
        proof {
            assert(docs_of(docs@) =~= before.drop_last());
            assert(before.last() == last@);
        }
        d = Document::Cons(Box::new(last), Box::new(d));
    }
    d
}

/// `docs` with `sep` between each two neighbours. The work is done by
/// `itertools::Itertools::intersperse`, which hands out the items of an iterator in their
/// order and a copy of its second argument between each two of them; the contract states
/// that and is not proved here.
#[verifier::external_body]
pub(crate) fn intersperse(docs: Vec<Document>, sep: Document) -> (res: Vec<Document>)
    ensures
        docs_of(res@) == interspersed(docs_of(docs@), sep@),
{
    itertools::Itertools::intersperse(docs.into_iter(), sep).collect()
}

/// `a + b`, or the largest value where the sum is above it.
fn add_capped(a: usize, b: usize) -> (sum: usize)
    ensures
        sum == capped(a as nat, b as nat),
{
    if b > usize::MAX - a {
        usize::MAX
    } else {
        a + b
    }
}

impl Document {
    /// This document, then `other`.
    pub fn append(self, other: Document) -> (d: Document)
        ensures
            d@ == Doc::Cons(Box::new(self@), Box::new(other@)),
    {
        Document::Cons(Box::new(self), Box::new(other))
    }

    /// This document with its new lines starting `by` columns further right.
    pub fn nest(self, by: usize) -> (d: Document)
        ensures
            d@ == Doc::Nest(by as nat, Box::new(self@)),
    {
        Document::Nest(by, Box::new(self))
    }

    /// This document as a group.
    pub fn group(self) -> (d: Document)
        ensures
            d@ == Doc::Group(Box::new(self@)),
    {
        Document::Group(Box::new(self))
    }

    /// Whether this document takes at most `room` columns on one line, and then how many
    /// of them it leaves.
    pub fn fits(&self, room: usize) -> (left: Option<usize>)
        ensures
            match left {
                Some(n) => flat(self@).len() + n == room,
                None => flat(self@).len() > room,
            },
        decreases self,
    {
        match self {
            Document::Nil => Some(room),
            Document::Break { unbroken, .. } => {
                let n = unbroken.as_str().unicode_len();
                if n > room {
                    None
                } else {
                    Some(room - n)
                }
            },
            Document::Cons(left, right) => match left.fits(room) {
                Some(rest) => right.fits(rest),
                None => None,
            },
            Document::Nest(_, inner) => inner.fits(room),
            Document::Group(inner) => inner.fits(room),
            Document::Text(s) => {
                let n = s.as_str().unicode_len();
                if n > room {
                    None
                } else {
                    Some(room - n)
                }
            },
        }
    }

    /// Adds this document to `out`, a line that has reached column `col`, and returns the
    /// column reached after it.
    pub fn render(&self, limit: usize, indent: usize, broken: bool, col: usize, out: &mut String) -> (end:
        usize)
        ensures
            final(out)@ == old(out)@ + render(self@, limit as nat, indent as nat, broken, col as nat).0,
            end == render(self@, limit as nat, indent as nat, broken, col as nat).1,
        decreases self,
    {
        match self {
            Document::Nil => {
                proof {
                    assert(out@ =~= old(out)@ + Seq::<char>::empty());
                }
                col
            },
            Document::Break { broken: b, unbroken: u } => {
                if broken {
                    out.append(b.as_str());
                    out.append("\n");
                    proof {
                        reveal_strlit("\n");
                        assert("\n"@ =~= seq!['\n']);
                    }
                    let mut i: usize = 0;
                    while i < indent
                        invariant
                            i <= indent,
                            out@ == old(out)@ + b@ + seq!['\n'] + blanks(i as nat),
                        decreases indent - i,
                    {
                        out.append(" ");
                        proof {
                            reveal_strlit(" ");
                            assert(" "@ =~= seq![' ']);
                            assert(blanks(i as nat) + seq![' '] =~= blanks((i + 1) as nat));
                            assert(out@ =~= old(out)@ + b@ + seq!['\n'] + blanks((i + 1) as nat));
                        }
                        i += 1;
                    }
                    proof {
                        assert(out@ =~= old(out)@ + (b@ + seq!['\n'] + blanks(indent as nat)));
                    }
                    indent
                } else {
                    out.append(u.as_str());
                    add_capped(col, u.as_str().unicode_len())
                }
            },
            Document::Cons(left, right) => {
                let mid = left.render(limit, indent, broken, col, out);
                let end = right.render(limit, indent, broken, mid, out);
                proof {
                    let first = render(left@, limit as nat, indent as nat, broken, col as nat);
                    let second = render(right@, limit as nat, indent as nat, broken, first.1);
                    assert(out@ =~= old(out)@ + (first.0 + second.0));
                }
                end
            },
            Document::Nest(by, inner) => inner.render(limit, add_capped(indent, *by), broken, col, out),
            Document::Group(inner) => {
                let fits = col <= limit && inner.fits(limit - col).is_some();
                inner.render(limit, indent, !fits, col, out)
            },
            Document::Text(s) => {
                out.append(s.as_str());
                add_capped(col, s.as_str().unicode_len())
            },
        }
    }

    /// The text of this document for lines of at most `limit` columns.
    pub fn format(&self, limit: usize) -> (s: String)
        ensures
            s@ == layout(self@, limit as nat),
    {
        let mut out = String::new();
        let fits = self.fits(limit).is_some();
        self.render(limit, 0, !fits, 0, &mut out);
        proof {
            assert(out@ =~= render(self@, limit as nat, 0, !fits, 0).0);
        }
        out
    }
}

} // verus!
