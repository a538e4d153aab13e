//! Parse trees as the front end hands them over: labelled applications and
//! tokens, and the cons lists that applications form.

use vstd::prelude::*;
use vstd::string::StringExecFns;
use crate::text::{debug_string, debug_text, same_text};

verus! {

/// A node of a parse tree: an application of a label to arguments, or a
/// token.
#[derive(Debug, PartialEq, Eq, Hash)]
pub enum KInner {
    KApply(KApply),
    KToken(KToken),
}

/// A parse tree with the version and format that it was written in.
#[derive(Debug, PartialEq, Eq, Hash)]
pub struct KAst {
    pub version: u32,
    pub term: KInner,
    pub format: String,
}

/// A token and its sort.
#[derive(Debug, PartialEq, Eq, Hash)]
pub struct KToken {
    pub token: String,
    pub sort: KSort,
}

/// The sort of a token.
#[derive(Debug, PartialEq, Eq, Hash)]
pub struct KSort {
    pub name: String,
}

/// A label applied to arguments.
#[derive(Debug, PartialEq, Eq, Hash)]
pub struct KApply {
    pub label: KLabel,
    pub args: Vec<KInner>,
}

/// The label of an application.
#[derive(Debug, PartialEq, Eq, Hash)]
pub struct KLabel {
    pub name: String,
}

/// The items of the cons list that starts at `k`: a node with another label
/// ends the list; a node with the label holds an item and the rest of the
/// list.
pub open spec fn cons_items(k: KApply, label: Seq<char>) -> Result<Seq<KInner>, Seq<char>>
    decreases k,
{
    if k.label.name@ != label {
        Ok(Seq::empty())
    } else if k.args.len() < 2 {
        Err("Expected 2 args"@)
    } else {
        match k.args[1] {
            KInner::KApply(rest) => match cons_items(rest, label) {
                Ok(items) => Ok(seq![k.args[0]] + items),
                Err(e) => Err(e),
            },
            KInner::KToken(_) => Err("Second element of cons list was token"@),
        }
    }
}

/// Every item of a cons list is a part of the node at which the list
/// starts.
pub proof fn lemma_cons_items_are_parts(k: KApply, label: Seq<char>, i: int)
    requires
        cons_items(k, label) is Ok,
        0 <= i < cons_items(k, label)->Ok_0.len(),
    ensures
        decreases_to!(k => cons_items(k, label)->Ok_0[i]),
    decreases k,
{
    if i > 0 {
        match k.args[1] {
            KInner::KApply(rest) => {
                lemma_cons_items_are_parts(rest, label, i - 1);
                assert(cons_items(k, label)->Ok_0[i] == cons_items(rest, label)->Ok_0[i - 1]);
                assert(decreases_to!(k => k.args[1]));
                assert(decreases_to!(k.args[1] => rest));
            },
            KInner::KToken(_) => {},
        }
    }
}

/// The nodes that a list of references stands for.
pub open spec fn refs_view(items: Seq<&KInner>) -> Seq<KInner> {
    Seq::new(items.len(), |i: int| *items[i])
}

impl KInner {
    /// The application that the node is; a token is an error.
    pub fn get_kapply(&self) -> (r: Result<&KApply, String>)
        ensures
            match r {
                Ok(k) => *self == KInner::KApply(*k),
                Err(e) => self is KToken && e@ == "Expected kapply"@,
            },
    {
        match self {
            KInner::KApply(kapply) => Ok(kapply),
            KInner::KToken(_) => Err("Expected kapply".to_owned()),
        }
    }

    /// The token that the node is; an application is an error.
    pub fn get_token(&self) -> (r: Result<&KToken, String>)
        ensures
            match r {
                Ok(t) => *self == KInner::KToken(*t),
                Err(e) => self is KApply && e@ == "Expected token"@,
            },
    {
        match self {
            KInner::KToken(ktoken) => Ok(ktoken),
            KInner::KApply(_) => Err("Expected token".to_owned()),
        }
    }
}

impl KApply {
    /// The argument of an application that has exactly one.
    pub fn unpack_arg(&self) -> (r: Result<&KInner, String>)
        ensures
            match r {
                Ok(a) => self.args.len() == 1 && *a == self.args[0],
                Err(e) => self.args.len() != 1 && e@ == "Expected 1 arg"@,
            },
    {
        if self.args.len() == 1 {
            Ok(&self.args[0])
        } else {
            Err("Expected 1 arg".to_owned())
        }
    }

    /// The arguments of an application that has exactly two.
    pub fn unpack_2args(&self) -> (r: Result<(&KInner, &KInner), String>)
        ensures
            match r {
                Ok((a, b)) => self.args.len() == 2 && *a == self.args[0] && *b == self.args[1],
                Err(e) => self.args.len() != 2 && e@ == "Expected 2 args"@,
            },
    {
        if self.args.len() == 2 {
            Ok((&self.args[0], &self.args[1]))
        } else {
            Err("Expected 2 args".to_owned())
        }
    }

    /// The arguments of an application that has exactly four.
    pub fn unpack_4args(&self) -> (r: Result<(&KInner, &KInner, &KInner, &KInner), String>)
        ensures
            match r {
                Ok((a, b, c, d)) => self.args.len() == 4 && *a == self.args[0] && *b
                    == self.args[1] && *c == self.args[2] && *d == self.args[3],
                Err(e) => self.args.len() != 4 && e@ == "Expected 4 args"@,
            },
    {
        if self.args.len() == 4 {
            Ok((&self.args[0], &self.args[1], &self.args[2], &self.args[3]))
        } else {
            Err("Expected 4 args".to_owned())
        }
    }

    /// The items of the cons list that starts at this node, in order. A
    /// node with another label ends the list. A node with the label holds
    /// an item and the rest of the list: it is an error where it has fewer
    /// than two arguments or the second is a token.
    pub fn flatten_cons(&self, cons_label: &str) -> (r: Result<Vec<&KInner>, String>)
        ensures
            match r {
                Ok(items) => cons_items(*self, cons_label@) == Ok::<Seq<KInner>, Seq<char>>(
                    refs_view(items@),
                ),
                Err(e) => cons_items(*self, cons_label@) == Err::<Seq<KInner>, Seq<char>>(e@),
            },
        decreases self,
    {
        if !same_text(&self.label.name, cons_label) {
            let items: Vec<&KInner> = Vec::new();
            assert(refs_view(items@) =~= Seq::empty());
            return Ok(items);
        }
        if self.args.len() < 2 {
            return Err("Expected 2 args".to_owned());
        }
        let mut values: Vec<&KInner> = Vec::new();
        values.push(&self.args[0]);
        match &self.args[1] {
            KInner::KApply(kapply) => {
                let mut rest = match kapply.flatten_cons(cons_label) {
                    Ok(rest) => rest,
                    Err(e) => {
                        return Err(e);
                    },
                };
                let ghost tail = refs_view(rest@);
                values.append(&mut rest);
                assert(refs_view(values@) =~= seq![self.args[0]] + tail);
            },
            KInner::KToken(_) => {
                return Err("Second element of cons list was token".to_owned());
            },
        }
        Ok(values)
    }
}

/// The indentation of one level.
pub const STANDARD_PADDING: &'static str = "  ";

/// The indentation of `depth` levels.
pub open spec fn padding(depth: nat) -> Seq<char>
    decreases depth,
{
    if depth == 0 {
        Seq::empty()
    } else {
        padding((depth - 1) as nat) + STANDARD_PADDING@
    }
}

/// The line of a token behind the indentation `pad`: its sort, and its
/// text as `Debug` formats it.
pub open spec fn token_text(t: KToken, pad: Seq<char>) -> Seq<char> {
    pad + "KToken "@ + t.sort.name@ + " "@ + debug_text(t.token@)
}

/// The lines of a node behind the indentation `pad`.
pub open spec fn inner_text(k: KInner, pad: Seq<char>) -> Seq<char>
    decreases k, 1nat,
{
    match k {
        KInner::KApply(a) => apply_text(a, pad),
        KInner::KToken(t) => token_text(t, pad),
    }
}

/// The lines of an application behind the indentation `pad`: its label,
/// and below it the lines of its arguments, one level deeper.
pub open spec fn apply_text(k: KApply, pad: Seq<char>) -> Seq<char>
    decreases k, 1nat,
{
    pad + "KApply "@ + k.label.name@ + "\n"@ + args_text(k, pad + STANDARD_PADDING@, 0)
}

/// The lines of the arguments of `k` from index `i` on behind the
/// indentation `pad`, with a line break between two arguments.
pub open spec fn args_text(k: KApply, pad: Seq<char>, i: int) -> Seq<char>
    decreases k, 0nat, k.args.len() - i,
{
    if i < 0 || i >= k.args.len() {
        Seq::empty()
    } else if i == k.args.len() - 1 {
        inner_text(k.args[i], pad)
    } else {
        inner_text(k.args[i], pad) + "\n"@ + args_text(k, pad, i + 1)
    }
}

/// The indentation of `depth` levels.
fn padding_string(depth: usize) -> (r: String)
    ensures
        r@ == padding(depth as nat),
{
    let mut r = String::new();
    let mut i: usize = 0;
    while i < depth
        invariant
            i <= depth,
            r@ == padding(i as nat),
        decreases depth - i,
    {
        r.append(STANDARD_PADDING);
        i += 1;
    }
    r
}

impl KToken {
    /// Put the line of the token behind `out`.
    fn write_text(&self, pad: &str, out: &mut String)
        ensures
            final(out)@ == old(out)@ + token_text(*self, pad@),
    {
        let ghost before = out@;
        out.append(pad);
        out.append("KToken ");
        out.append(self.sort.name.as_str());
        out.append(" ");
        let quoted = debug_string(&self.token);
        out.append(quoted.as_str());
        assert(out@ =~= before + token_text(*self, pad@));
    }

    /// The line of the token at the given depth: the indentation, the
    /// sort of the token, and its text as `Debug` formats it.
    pub fn to_fmt_string(&self, depth: usize) -> (r: String)
        ensures
            r@ == token_text(*self, padding(depth as nat)),
    {
        let pad = padding_string(depth);
        let mut out = String::new();
        self.write_text(pad.as_str(), &mut out);
        assert(out@ =~= token_text(*self, pad@));
        out
    }
}

impl KInner {
    /// Put the lines of the node behind `out`.
    fn write_text(&self, pad: &str, out: &mut String)
        ensures
            final(out)@ == old(out)@ + inner_text(*self, pad@),
        decreases self, 1nat,
    {
        match self {
            KInner::KApply(kapply) => kapply.write_text(pad, out),
            KInner::KToken(ktoken) => ktoken.write_text(pad, out),
        }
    }

    /// The lines of the node at the given depth.
    pub fn to_fmt_string(&self, depth: usize) -> (r: String)
        ensures
            r@ == inner_text(*self, padding(depth as nat)),
    {
        let pad = padding_string(depth);
        let mut out = String::new();
        self.write_text(pad.as_str(), &mut out);
        assert(out@ =~= inner_text(*self, pad@));
        out
    }
}

impl KApply {
    /// Put the lines of the application behind `out`.
    fn write_text(&self, pad: &str, out: &mut String)
        ensures
            final(out)@ == old(out)@ + apply_text(*self, pad@),
        decreases self, 1nat,
    {
        let ghost before = out@;
        out.append(pad);
        out.append("KApply ");
        out.append(self.label.name.as_str());
        out.append("\n");
        let ghost head = out@;
        assert(head =~= before + (pad@ + "KApply "@ + self.label.name@ + "\n"@));
        let mut deeper = pad.to_owned();
        deeper.append(STANDARD_PADDING);
        let ghost inner_pad = pad@ + STANDARD_PADDING@;
        let mut i: usize = 0;
        while i < self.args.len()
            invariant
                i <= self.args.len(),
                deeper@ == inner_pad,
                out@ + args_text(*self, inner_pad, i as int) == head + args_text(
                    *self,
                    inner_pad,
                    0,
                ),
            decreases self.args.len() - i,
        {
            proof {
                vstd::std_specs::vec::axiom_vec_index_decreases(self.args, i as int);
            }
            let ghost so_far = out@;
            self.args[i].write_text(deeper.as_str(), out);
            if i + 1 < self.args.len() {
                out.append("\n");
                assert(out@ + args_text(*self, inner_pad, i + 1) =~= so_far + args_text(
                    *self,
                    inner_pad,
                    i as int,
                ));
            } else {
                assert(args_text(*self, inner_pad, i + 1) =~= Seq::empty());
                assert(out@ + args_text(*self, inner_pad, i + 1) =~= so_far + args_text(
                    *self,
                    inner_pad,
                    i as int,
                ));
            }
            i += 1;
        }
        assert(args_text(*self, inner_pad, i as int) =~= Seq::empty());
        assert(out@ =~= before + apply_text(*self, pad@));
    }

    /// The lines of the application at the given depth: the indentation
    /// and the label, and below them the lines of the arguments, one
    /// level deeper.
    pub fn to_fmt_string(&self, depth: usize) -> (r: String)
        ensures
            r@ == apply_text(*self, padding(depth as nat)),
    {
        let pad = padding_string(depth);
        let mut out = String::new();
        self.write_text(pad.as_str(), &mut out);
        assert(out@ =~= apply_text(*self, pad@));
        out
    }
}

/// The mathematical value of a `KInner`.
pub ghost enum KInnerView {
    KApply(KApplyView),
    KToken(KTokenView),
}

/// The mathematical value of a `KApply`.
pub ghost struct KApplyView {
    pub label: Seq<char>,
    pub args: Seq<KInnerView>,
}

/// The mathematical value of a `KToken`.
pub ghost struct KTokenView {
    pub token: Seq<char>,
    pub sort: Seq<char>,
}

/// The mathematical value of a `KAst`.
pub ghost struct KAstView {
    pub version: u32,
    pub term: KInnerView,
    pub format: Seq<char>,
}

/// The mathematical value of a node.
pub open spec fn inner_view(k: KInner) -> KInnerView
    decreases k,
{
    match k {
        KInner::KApply(a) => KInnerView::KApply(apply_view(a)),
        KInner::KToken(t) => KInnerView::KToken(t@),
    }
}

/// The mathematical value of an application.
pub open spec fn apply_view(k: KApply) -> KApplyView
    decreases k,
{
    KApplyView {
        label: k.label.name@,
        args: Seq::new(
            k.args.len() as nat,
            |i: int|
                if 0 <= i < k.args.len() {
                    inner_view(k.args[i])
                } else {
                    arbitrary()
                },
        ),
    }
}

impl View for KToken {
    type V = KTokenView;

    open spec fn view(&self) -> KTokenView {
        KTokenView { token: self.token@, sort: self.sort.name@ }
    }
}

impl View for KInner {
    type V = KInnerView;

    open spec fn view(&self) -> KInnerView {
        inner_view(*self)
    }
}

impl View for KApply {
    type V = KApplyView;

    open spec fn view(&self) -> KApplyView {
        apply_view(*self)
    }
}

impl View for KAst {
    type V = KAstView;

    open spec fn view(&self) -> KAstView {
        KAstView { version: self.version, term: self.term@, format: self.format@ }
    }
}

impl Clone for KInner {
    fn clone(&self) -> (r: KInner)
        ensures
            r@ == self@,
        decreases self,
    {
        match self {
            KInner::KApply(kapply) => KInner::KApply(kapply.clone()),
            KInner::KToken(ktoken) => KInner::KToken(ktoken.clone()),
        }
    }
}

impl Clone for KApply {
    fn clone(&self) -> (r: KApply)
        ensures
            r@ == self@,
        decreases self,
    {
        let mut args: Vec<KInner> = Vec::new();
        let mut i: usize = 0;
        while i < self.args.len()
            invariant
                i <= self.args.len(),
                args.len() == i,
                forall|j: int| 0 <= j < i ==> args[j]@ == self.args[j]@,
            decreases self.args.len() - i,
        {
            proof {
                vstd::std_specs::vec::axiom_vec_index_decreases(self.args, i as int);
            }
            args.push(self.args[i].clone());
            i += 1;
        }
        let r = KApply { label: self.label.clone(), args };
        assert(r@.args =~= self@.args);
        r
    }
}

impl Clone for KToken {
    fn clone(&self) -> (r: KToken)
        ensures
            r@ == self@,
    {
        KToken { token: self.token.clone(), sort: self.sort.clone() }
    }
}

impl Clone for KSort {
    fn clone(&self) -> (r: KSort)
        ensures
            r.name@ == self.name@,
    {
        KSort { name: self.name.clone() }
    }
}

impl Clone for KLabel {
    fn clone(&self) -> (r: KLabel)
        ensures
            r.name@ == self.name@,
    {
        KLabel { name: self.name.clone() }
    }
}

impl Clone for KAst {
    fn clone(&self) -> (r: KAst)
        ensures
            r@ == self@,
    {
        KAst { version: self.version, term: self.term.clone(), format: self.format.clone() }
    }
}

} // verus!
