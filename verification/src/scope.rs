//! The stack of open uLisp scopes that the transcoder emits into.
//!
//! A scope opens with a header such as `let* (( LED_GPIO 11 ))` or
//! `dotimes (i 10)` and collects finished child S-expressions in order.
//! Closing a scope renders it as `( <header> \n` followed by its body
//! entries, each indented by two spaces and ended by a newline, and a
//! closing `)`; the rendering of an inner scope becomes a body entry of the
//! scope below it.

use vstd::prelude::*;

verus! {

/// The mathematical model of one open scope.
#[verifier::ext_equal]
pub struct ScopeModel {
    /// The opening keyword form, e.g. `let* (( x 11 ))`.
    pub header: Seq<char>,
    /// Finished child S-expressions, in emission order.
    pub body: Seq<Seq<char>>,
}

/// One open uLisp scope.
pub struct Scope {
    /// The opening keyword form, e.g. `let* (( x 11 ))`.
    pub header: String,
    /// Finished child S-expressions, in emission order.
    pub body: Vec<String>,
}

impl View for Scope {
    type V = ScopeModel;

    open spec fn view(&self) -> ScopeModel {
        ScopeModel { header: self.header@, body: self.body.deep_view() }
    }
}

/// The concatenation of the first `i` body entries, each rendered as
/// two spaces, the entry, and a newline.
pub open spec fn spec_indent_prefix(body: Seq<Seq<char>>, i: int) -> Seq<char>
    decreases i,
{
    if i <= 0 {
        Seq::empty()
    } else {
        spec_indent_prefix(body, i - 1) + "  "@ + body[i - 1] + "\n"@
    }
}

/// The rendered text of a closed scope: `( <header> \n` followed by the
/// indented body entries and a closing `)`.
pub open spec fn spec_render_scope(s: ScopeModel) -> Seq<char> {
    "( "@ + s.header + " \n"@ + spec_indent_prefix(s.body, s.body.len() as int) + ")"@
}

/// Appending an expression to the current (top) scope; an empty expression
/// is a no-op.
pub open spec fn spec_add_to_scope(stack: Seq<ScopeModel>, expr: Seq<char>) -> Seq<ScopeModel>
    recommends
        expr.len() > 0 ==> stack.len() > 0,
{
    if expr.len() == 0 {
        stack
    } else {
        let top = stack.last();
        stack.update(stack.len() - 1, ScopeModel { header: top.header, body: top.body.push(expr) })
    }
}

/// Closing scope `index` and every scope above it, in LIFO order. Each
/// closed scope is rendered; the rendering of an inner scope is pushed into
/// the body of the scope below it, and the rendering of scope `index`
/// itself is the returned text. The result is the remaining stack and that
/// text.
pub open spec fn spec_end_scope(stack: Seq<ScopeModel>, index: int) -> (Seq<ScopeModel>, Seq<char>)
    recommends
        0 <= index < stack.len(),
    decreases stack.len() - index,
{
    if index < 0 || index >= stack.len() {
        (stack, Seq::empty())
    } else {
        let rendered = spec_render_scope(stack.last());
        let popped = stack.drop_last();
        if popped.len() <= index {
            (popped, rendered)
        } else {
            let parent = popped.last();
            let updated = popped.update(
                popped.len() - 1,
                ScopeModel { header: parent.header, body: parent.body.push(rendered) },
            );
            spec_end_scope(updated, index)
        }
    }
}

/// Closing a scope leaves exactly the scopes below it on the stack.
pub proof fn lemma_end_scope_len(stack: Seq<ScopeModel>, index: int)
    requires
        0 <= index < stack.len(),
    ensures
        spec_end_scope(stack, index).0.len() == index,
    decreases stack.len() - index,
{
    let popped = stack.drop_last();
    if popped.len() > index {
        let parent = popped.last();
        let rendered = spec_render_scope(stack.last());
        let updated = popped.update(
            popped.len() - 1,
            ScopeModel { header: parent.header, body: parent.body.push(rendered) },
        );
        lemma_end_scope_len(updated, index);
    }
}

/// The ordered stack of open scopes; the last element is the current scope
/// and index 0 is the root.
pub struct ScopeStack {
    scopes: Vec<Scope>,
}

impl View for ScopeStack {
    type V = Seq<ScopeModel>;

    closed spec fn view(&self) -> Seq<ScopeModel> {
        self.scopes@.map_values(|sc: Scope| sc@)
    }
}

/// Render one scope as its closing text.
fn render_scope(sc: &Scope) -> (r: String)
    ensures
        r@ == spec_render_scope(sc@),
{
    let mut r = String::from_str("( ");
    r.append(sc.header.as_str());
    r.append(" \n");
    proof {
        assert(r@ =~= "( "@ + sc@.header + " \n"@ + spec_indent_prefix(sc@.body, 0));
    }
    let mut k: usize = 0;
    while k < sc.body.len()
        invariant
            k <= sc.body.len(),
            r@ == "( "@ + sc@.header + " \n"@ + spec_indent_prefix(sc@.body, k as int),
        decreases sc.body.len() - k,
    {
        r.append("  ");
        r.append(sc.body[k].as_str());
        r.append("\n");
        k = k + 1;
        proof {
            assert(r@ =~= "( "@ + sc@.header + " \n"@ + spec_indent_prefix(sc@.body, k as int));
        }
    }
    r.append(")");
    proof {
        assert(r@ =~= spec_render_scope(sc@));
    }
    r
}

impl ScopeStack {
    /// An empty stack, with no open scope.
    pub fn new() -> (s: Self)
        ensures
            s@ == Seq::<ScopeModel>::empty(),
    {
        let s = ScopeStack { scopes: Vec::new() };
        proof {
            assert(s@ =~= Seq::<ScopeModel>::empty());
        }
        s
    }

    /// How many scopes are open.
    pub fn depth(&self) -> (n: usize)
        ensures
            n == self@.len(),
    {
        self.scopes.len()
    }

    /// Drop every open scope, emitting nothing; used to unwind after a
    /// failed transcoding.
    pub fn clear(&mut self)
        ensures
            final(self)@ == Seq::<ScopeModel>::empty(),
    {
        self.scopes = Vec::new();
        proof {
            assert(self@ =~= Seq::<ScopeModel>::empty());
        }
    }

    /// Open a new scope under the current one and return its index; the
    /// first scope has index 0.
    pub fn begin_scope(&mut self, header: &str) -> (index: usize)
        ensures
            final(self)@ == old(self)@.push(ScopeModel { header: header@, body: Seq::empty() }),
            index as int == old(self)@.len(),
    {
        let sc = Scope { header: String::from_str(header), body: Vec::new() };
        proof {
            assert(sc@.body =~= Seq::<Seq<char>>::empty());
        }
        self.scopes.push(sc);
        proof {
            assert(self@ =~= old(self)@.push(ScopeModel { header: header@, body: Seq::empty() }));
        }
        self.scopes.len() - 1
    }

    /// Append a finished S-expression to the current scope; an empty
    /// expression is a no-op.
    pub fn add_to_scope(&mut self, expr: &str)
        requires
            expr@.len() > 0 ==> old(self)@.len() > 0,
        ensures
            final(self)@ == spec_add_to_scope(old(self)@, expr@),
    {
        if expr.is_empty() {
            return ;
        }
        let ghost ov = old(self)@;
        let mut top = self.scopes.pop().unwrap();
        let ghost tm = top@;
        top.body.push(String::from_str(expr));
        proof {
            assert(tm == ov.last());
            assert(top@.body =~= tm.body.push(expr@));
        }
        self.scopes.push(top);
        proof {
            assert(self@ =~= spec_add_to_scope(ov, expr@));
        }
    }

    /// Close scope `index` and all scopes above it and return the rendered
    /// text of scope `index`; the renderings of the inner scopes become
    /// body entries of the scopes below them.
    pub fn end_scope(&mut self, index: usize) -> (r: String)
        requires
            (index as int) < old(self)@.len(),
        ensures
            final(self)@ == spec_end_scope(old(self)@, index as int).0,
            r@ == spec_end_scope(old(self)@, index as int).1,
            final(self)@.len() == index as int,
    {
        proof {
            lemma_end_scope_len(old(self)@, index as int);
        }
        let ghost orig = self@;
        let mut result = String::new();
        while self.scopes.len() > index
            invariant
                index as int <= self@.len(),
                self@.len() > index ==> spec_end_scope(self@, index as int) == spec_end_scope(
                    orig,
                    index as int,
                ),
                self@.len() <= index ==> self@ == spec_end_scope(orig, index as int).0 && result@
                    == spec_end_scope(orig, index as int).1,
            decreases self@.len() - index,
        {
            let ghost before = self@;
            let top = self.scopes.pop().unwrap();
            let rendered = render_scope(&top);
            proof {
                assert(top@ == before.last());
                assert(self@ =~= before.drop_last());
            }
            if self.scopes.len() > index {
                let ghost popped = self@;
                let ghost rv = rendered@;
                let mut parent = self.scopes.pop().unwrap();
                let ghost pm = parent@;
                parent.body.push(rendered);
                proof {
                    assert(pm == popped.last());
                    assert(parent@.body =~= pm.body.push(rv));
                }
                self.scopes.push(parent);
                proof {
                    let p = popped.last();
                    let updated = popped.update(
                        popped.len() - 1,
                        ScopeModel { header: p.header, body: p.body.push(rv) },
                    );
                    assert(self@ =~= updated);
                    assert(spec_end_scope(before, index as int) == spec_end_scope(
                        updated,
                        index as int,
                    ));
                }
            } else {
                result = rendered;
            }
        }
        result
    }
}

} // verus!
