//! Drawing tools and their named properties.
use vstd::prelude::*;
use crate::text::{dec_int, parse_i32_spec, parse_i32, i32_to_string, lemma_i32_round_trip};

verus! {

/// A named property of a tool, with its value as text.
pub struct Property {
    name: String,
    value: String,
}

impl View for Property {
    type V = (Seq<char>, Seq<char>);

    closed spec fn view(&self) -> (Seq<char>, Seq<char>) {
        (self.name@, self.value@)
    }
}

impl Property {
    pub fn new(name: &str, value: &str) -> (p: Property)
        ensures
            p@ == (name@, value@),
    {
        Property { name: name.to_owned(), value: value.to_owned() }
    }

    /// Renames the property.
    pub fn name(&mut self, text: &str)
        ensures
            final(self)@ == (text@, old(self)@.1),
    {
        self.name = text.to_owned();
    }

    /// Gives the property a new value.
    pub fn value(&mut self, value: &str)
        ensures
            final(self)@ == (old(self)@.0, value@),
    {
        self.value = value.to_owned();
    }

    pub fn get_name(&self) -> (s: &String)
        ensures
            s@ == self@.0,
    {
        &self.name
    }

    pub fn get_value(&self) -> (s: &String)
        ensures
            s@ == self@.1,
    {
        &self.value
    }
}

/// Values a property can be set to: integers and text, each with the text
/// it is stored as.
pub trait MyTrait {
    spec fn text_of(&self) -> Seq<char>;

    fn to_text(&self) -> (s: String)
        ensures
            s@ == self.text_of(),
    ;
}

impl MyTrait for i32 {
    open spec fn text_of(&self) -> Seq<char> {
        dec_int(*self as int)
    }

    fn to_text(&self) -> (s: String) {
        i32_to_string(*self)
    }
}

impl MyTrait for str {
    open spec fn text_of(&self) -> Seq<char> {
        self@
    }

    fn to_text(&self) -> (s: String) {
        self.to_owned()
    }
}

impl<'a> MyTrait for &'a str {
    open spec fn text_of(&self) -> Seq<char> {
        (*self)@
    }

    fn to_text(&self) -> (s: String) {
        (*self).to_owned()
    }
}

impl MyTrait for String {
    open spec fn text_of(&self) -> Seq<char> {
        self@
    }

    fn to_text(&self) -> (s: String) {
        self.as_str().to_owned()
    }
}

/// A property as (name, value).
pub type PropView = (Seq<char>, Seq<char>);

/// A tool as (name, properties).
pub type ToolView = (Seq<char>, Seq<PropView>);

/// Position of the first property called `name`, or -1.
pub open spec fn find_prop(props: Seq<PropView>, name: Seq<char>) -> int
    decreases props.len(),
{
    if props.len() == 0 {
        -1
    } else if props[0].0 == name {
        0
    } else {
        let r = find_prop(props.drop_first(), name);
        if r < 0 { -1 } else { r + 1 }
    }
}

/// Position of the tool called `name`, or -1.
pub open spec fn find_tool(tools: Seq<ToolView>, name: Seq<char>) -> int
    decreases tools.len(),
{
    if tools.len() == 0 {
        -1
    } else if tools[0].0 == name {
        0
    } else {
        let r = find_tool(tools.drop_first(), name);
        if r < 0 { -1 } else { r + 1 }
    }
}

/// No two tools have the same name.
pub open spec fn names_unique(tools: Seq<ToolView>) -> bool {
    forall|i: int, j: int| 0 <= i < j < tools.len() ==> tools[i].0 != tools[j].0
}

/// The properties of the tool called `name` (which must exist).
pub open spec fn props_of(tools: Seq<ToolView>, name: Seq<char>) -> Seq<PropView> {
    tools[find_tool(tools, name)].1
}

/// The properties after giving every one called `name` the value `v`.
pub open spec fn props_set(props: Seq<PropView>, name: Seq<char>, v: Seq<char>) -> Seq<PropView> {
    Seq::new(props.len(), |i: int| if props[i].0 == name { (name, v) } else { props[i] })
}

pub proof fn lemma_find_prop(props: Seq<PropView>, name: Seq<char>)
    ensures
        -1 <= find_prop(props, name) < props.len(),
        find_prop(props, name) >= 0 ==> props[find_prop(props, name)].0 == name,
        forall|i: int| 0 <= i < props.len() && (find_prop(props, name) < 0 || i < find_prop(props, name)) ==> #[trigger] props[i].0 != name,
    decreases props.len(),
{
    if props.len() > 0 && props[0].0 != name {
        lemma_find_prop(props.drop_first(), name);
        assert forall|i: int| 0 <= i < props.len() && (find_prop(props, name) < 0 || i < find_prop(props, name)) implies #[trigger] props[i].0 != name by {
            if i > 0 {
                assert(props[i] == props.drop_first()[i - 1]);
            }
        }
    }
}

pub proof fn lemma_find_tool(tools: Seq<ToolView>, name: Seq<char>)
    ensures
        -1 <= find_tool(tools, name) < tools.len(),
        find_tool(tools, name) >= 0 ==> tools[find_tool(tools, name)].0 == name,
        forall|i: int| 0 <= i < tools.len() && (find_tool(tools, name) < 0 || i < find_tool(tools, name)) ==> #[trigger] tools[i].0 != name,
    decreases tools.len(),
{
    if tools.len() > 0 && tools[0].0 != name {
        lemma_find_tool(tools.drop_first(), name);
        assert forall|i: int| 0 <= i < tools.len() && (find_tool(tools, name) < 0 || i < find_tool(tools, name)) implies #[trigger] tools[i].0 != name by {
            if i > 0 {
                assert(tools[i] == tools.drop_first()[i - 1]);
            }
        }
    }
}

/// The first position satisfying the three facts of `lemma_find_prop` is
/// the one `find_prop` gives.
proof fn lemma_find_prop_is(props: Seq<PropView>, name: Seq<char>, k: int)
    requires
        -1 <= k < props.len(),
        k >= 0 ==> props[k].0 == name,
        forall|i: int| 0 <= i < props.len() && (k < 0 || i < k) ==> #[trigger] props[i].0 != name,
    ensures
        find_prop(props, name) == k,
{
    lemma_find_prop(props, name);
    let f = find_prop(props, name);
    if f != k {
        if f >= 0 && (k < 0 || f < k) {
            assert(props[f].0 != name);
        } else if k >= 0 {
            assert(props[k].0 != name);
        }
    }
}

proof fn lemma_find_tool_is(tools: Seq<ToolView>, name: Seq<char>, k: int)
    requires
        -1 <= k < tools.len(),
        k >= 0 ==> tools[k].0 == name,
        forall|i: int| 0 <= i < tools.len() && (k < 0 || i < k) ==> #[trigger] tools[i].0 != name,
    ensures
        find_tool(tools, name) == k,
{
    lemma_find_tool(tools, name);
    let f = find_tool(tools, name);
    if f != k {
        if f >= 0 && (k < 0 || f < k) {
            assert(tools[f].0 != name);
        } else if k >= 0 {
            assert(tools[k].0 != name);
        }
    }
}

/// The tools, each with its properties, and the tool selected.
pub struct Tools {
    tools: Vec<(String, Vec<Property>)>,
    selected: String,
}

pub open spec fn props_view(ps: Seq<Property>) -> Seq<PropView> {
    Seq::new(ps.len(), |i: int| ps[i]@)
}

impl View for Tools {
    type V = Seq<ToolView>;

    closed spec fn view(&self) -> Seq<ToolView> {
        Seq::new(self.tools@.len(), |i: int| (self.tools@[i].0@, props_view(self.tools@[i].1@)))
    }
}

impl Tools {
    pub open spec fn wf(&self) -> bool {
        names_unique(self@)
    }

    /// No tools.
    pub fn new() -> (t: Tools)
        ensures
            t@.len() == 0,
            t.wf(),
    {
        let t = Tools { tools: Vec::new(), selected: String::new() };
        assert(t@ =~= Seq::<ToolView>::empty());
        t
    }

    /// Position of the tool called `key`, or `None`.
    fn position(&self, key: &str) -> (pos: Option<usize>)
        ensures
            match pos {
                Some(i) => find_tool(self@, key@) == i,
                None => find_tool(self@, key@) == -1,
            },
    {
        let k = key.to_owned();
        let mut i: usize = 0;
        while i < self.tools.len()
            invariant
                i <= self.tools@.len(),
                k@ == key@,
                forall|j: int| 0 <= j < i ==> #[trigger] self@[j].0 != key@,
            decreases self.tools@.len() - i,
        {
            if self.tools[i].0 == k {
                proof {
                    lemma_find_tool_is(self@, key@, i as int);
                }
                return Some(i);
            }
            i += 1;
        }
        proof {
            lemma_find_tool_is(self@, key@, -1);
        }
        None
    }

    /// Registers the tool `key` with its properties, replacing the tool of
    /// that name if there is one.
    pub fn insert(&mut self, key: &str, properties: Vec<Property>)
        requires
            old(self).wf(),
        ensures
            final(self).wf(),
            find_tool(old(self)@, key@) >= 0 ==> final(self)@ == old(self)@.update(find_tool(old(self)@, key@), (key@, props_view(properties@))),
            find_tool(old(self)@, key@) < 0 ==> final(self)@ == old(self)@.push((key@, props_view(properties@))),
    {
        proof {
            lemma_find_tool(self@, key@);
        }
        match self.position(key) {
            Some(i) => {
                self.tools.set(i, (key.to_owned(), properties));
                assert(self@ =~= old(self)@.update(i as int, (key@, props_view(properties@))));
            }
            None => {
                self.tools.push((key.to_owned(), properties));
                assert(self@ =~= old(self)@.push((key@, props_view(properties@))));
            }
        }
    }

    /// The value of the first property called `property` of tool
    /// `tool_name`, read as an integer; `None` when the tool has no such
    /// property.
    pub fn get(&self, tool_name: &str, property: &str) -> (r: Option<i32>)
        requires
            find_tool(self@, tool_name@) >= 0,
            ({
                let ps = props_of(self@, tool_name@);
                find_prop(ps, property@) >= 0 ==> parse_i32_spec(ps[find_prop(ps, property@)].1) is Some
            }),
        ensures
            ({
                let ps = props_of(self@, tool_name@);
                let i = find_prop(ps, property@);
                r == if i >= 0 { parse_i32_spec(ps[i].1) } else { None }
            }),
    {
        match self.get_str(tool_name, property) {
            Some(v) => {
                Some(parse_i32(v.as_str()).unwrap())
            }
            None => None,
        }
    }

    /// The value of the first property called `property` of tool
    /// `tool_name`; `None` when the tool has no such property.
    pub fn get_str(&self, tool_name: &str, property: &str) -> (r: Option<String>)
        requires
            find_tool(self@, tool_name@) >= 0,
        ensures
            ({
                let ps = props_of(self@, tool_name@);
                let i = find_prop(ps, property@);
                &&& r is Some <==> i >= 0
                &&& r matches Some(s) ==> s@ == ps[i].1
            }),
    {
        proof {
            lemma_find_tool(self@, tool_name@);
        }
        let t = match self.position(tool_name) {
            Some(t) => t,
            None => { return None; }
        };
        let properties = &self.tools[t].1;
        let ghost ps = props_of(self@, tool_name@);
        assert(ps == props_view(properties@));
        let p = property.to_owned();
        let mut i: usize = 0;
        while i < properties.len()
            invariant
                ps == props_view(properties@),
                ps == props_of(self@, tool_name@),
                i <= properties@.len(),
                p@ == property@,
                forall|j: int| 0 <= j < i ==> #[trigger] ps[j].0 != property@,
            decreases properties@.len() - i,
        {
            if properties[i].name == p {
                proof {
                    lemma_find_prop_is(ps, property@, i as int);
                }
                let v = properties[i].value.clone();
                assert(ps[i as int] == properties@[i as int]@);
                assert(v@ == ps[i as int].1);
                return Some(v);
            }
            i += 1;
        }
        proof {
            lemma_find_prop_is(ps, property@, -1);
        }
        None
    }

    /// Gives every property called `property` of tool `tool_name` the text
    /// of `value`.
    pub fn set<T: MyTrait>(&mut self, tool_name: &str, property: &str, value: T)
        requires
            old(self).wf(),
            find_tool(old(self)@, tool_name@) >= 0,
        ensures
            final(self).wf(),
            final(self)@ == old(self)@.update(
                find_tool(old(self)@, tool_name@),
                (tool_name@, props_set(props_of(old(self)@, tool_name@), property@, value.text_of())),
            ),
    {
        proof {
            lemma_find_tool(self@, tool_name@);
        }
        let t = match self.position(tool_name) {
            Some(t) => t,
            None => { return; }
        };
        let ghost ps = props_of(self@, tool_name@);
        let text = value.to_text();
        let p = property.to_owned();
        let mut props: Vec<Property> = Vec::new();
        let mut i: usize = 0;
        let n = self.tools[t].1.len();
        while i < n
            invariant
                t < self.tools@.len(),
                self@ == old(self)@,
                ps == props_view(self.tools@[t as int].1@),
                n == ps.len(),
                i <= n,
                p@ == property@,
                text@ == value.text_of(),
                props@.len() == i,
                forall|j: int| 0 <= j < i ==> #[trigger] props@[j]@ == props_set(ps, property@, text@)[j],
            decreases n - i,
        {
            let q = &self.tools[t].1[i];
            assert(ps[i as int] == q@);
            let np = if q.name == p {
                Property { name: p.clone(), value: text.clone() }
            } else {
                Property { name: q.name.clone(), value: q.value.clone() }
            };
            assert(np@ == props_set(ps, property@, text@)[i as int]);
            props.push(np);
            i += 1;
        }
        assert(props_view(props@) =~= props_set(ps, property@, text@));
        let name = self.tools[t].0.clone();
        assert(name@ == tool_name@);
        self.tools.set(t, (name, props));
        assert(self@ =~= old(self)@.update(t as int, (tool_name@, props_set(ps, property@, text@))));
        proof {
            let s = self@;
            assert forall|i: int, j: int| 0 <= i < j < s.len() implies s[i].0 != s[j].0 by {
                assert(s[i].0 == old(self)@[i].0);
                assert(s[j].0 == old(self)@[j].0);
            }
        }
    }

    /// The name of the current tool: the "Current" property of the tool
    /// "tool".
    pub fn current(&self) -> (name: String)
        requires
            find_tool(self@, "tool"@) >= 0,
            find_prop(props_of(self@, "tool"@), "Current"@) >= 0,
        ensures
            ({
                let ps = props_of(self@, "tool"@);
                name@ == ps[find_prop(ps, "Current"@)].1
            }),
    {
        self.get_str("tool", "Current").unwrap()
    }

    /// Makes `tool_name` the current tool.
    pub fn select(&mut self, tool_name: &'static str)
        requires
            old(self).wf(),
            find_tool(old(self)@, "tool"@) >= 0,
        ensures
            final(self).wf(),
            final(self)@ == old(self)@.update(
                find_tool(old(self)@, "tool"@),
                ("tool"@, props_set(props_of(old(self)@, "tool"@), "Current"@, tool_name@)),
            ),
    {
        self.set("tool", "Current", tool_name);
    }
}

/// Setting a property and reading it back gives the value set: as text,
/// and, for an integer, as the integer.
pub proof fn lemma_set_then_get(tools: Seq<ToolView>, tool: Seq<char>, property: Seq<char>, v: Seq<char>)
    requires
        names_unique(tools),
        find_tool(tools, tool) >= 0,
        find_prop(props_of(tools, tool), property) >= 0,
    ensures
        ({
            let after = tools.update(find_tool(tools, tool), (tool, props_set(props_of(tools, tool), property, v)));
            let ps = props_of(after, tool);
            &&& find_tool(after, tool) == find_tool(tools, tool)
            &&& find_prop(ps, property) == find_prop(props_of(tools, tool), property)
            &&& ps[find_prop(ps, property)].1 == v
        }),
{
    let t = find_tool(tools, tool);
    lemma_find_tool(tools, tool);
    let after = tools.update(t, (tool, props_set(props_of(tools, tool), property, v)));
    assert forall|i: int| 0 <= i < after.len() && i < t implies #[trigger] after[i].0 != tool by {
        assert(after[i] == tools[i]);
    }
    lemma_find_tool_is(after, tool, t);
    let ps0 = props_of(tools, tool);
    let ps = props_of(after, tool);
    lemma_find_prop(ps0, property);
    let k = find_prop(ps0, property);
    assert forall|i: int| 0 <= i < ps.len() && i < k implies #[trigger] ps[i].0 != property by {
        assert(ps[i] == ps0[i]);
    }
    lemma_find_prop_is(ps, property, k);
}

/// An integer stored in a property reads back as that integer.
pub proof fn lemma_set_int_then_get(v: i32)
    ensures
        parse_i32_spec(v.text_of()) == Some(v),
{
    lemma_i32_round_trip(v);
}

/// A named integer setting of a tool.
pub struct IntProperty {
    name: String,
    value: i32,
}

impl View for IntProperty {
    type V = (Seq<char>, i32);

    closed spec fn view(&self) -> (Seq<char>, i32) {
        (self.name@, self.value)
    }
}

impl IntProperty {
    pub fn new(name: &str, value: i32) -> (p: IntProperty)
        ensures
            p@ == (name@, value),
    {
        IntProperty { name: name.to_owned(), value }
    }

    /// Renames the setting.
    pub fn name(&mut self, text: &str)
        ensures
            final(self)@ == (text@, old(self)@.1),
    {
        self.name = text.to_owned();
    }

    /// Gives the setting a new value.
    pub fn value(&mut self, value: i32)
        ensures
            final(self)@ == (old(self)@.0, value),
    {
        self.value = value;
    }
}

pub open spec fn int_props_view(ps: Seq<IntProperty>) -> Seq<(Seq<char>, i32)> {
    Seq::new(ps.len(), |i: int| ps[i]@)
}

/// Position of the first setting called `name`, or -1.
pub open spec fn find_int(ps: Seq<(Seq<char>, i32)>, name: Seq<char>) -> int
    decreases ps.len(),
{
    if ps.len() == 0 {
        -1
    } else if ps[0].0 == name {
        0
    } else {
        let r = find_int(ps.drop_first(), name);
        if r < 0 { -1 } else { r + 1 }
    }
}

proof fn lemma_find_int_is(ps: Seq<(Seq<char>, i32)>, name: Seq<char>, k: int)
    requires
        -1 <= k < ps.len(),
        k >= 0 ==> ps[k].0 == name,
        forall|i: int| 0 <= i < ps.len() && (k < 0 || i < k) ==> #[trigger] ps[i].0 != name,
    ensures
        find_int(ps, name) == k,
    decreases ps.len(),
{
    if ps.len() > 0 && k != 0 {
        let t = ps.drop_first();
        assert forall|i: int| 0 <= i < t.len() && (k - 1 < 0 || i < k - 1) implies #[trigger] t[i].0 != name by {
            assert(t[i] == ps[i + 1]);
        }
        if k > 0 {
            assert(t[k - 1] == ps[k]);
            lemma_find_int_is(t, name, k - 1);
        } else {
            assert(ps[0].0 != name);
            lemma_find_int_is(t, name, -1);
        }
    }
}

proof fn lemma_find_int_bound(ps: Seq<(Seq<char>, i32)>, name: Seq<char>)
    ensures
        -1 <= find_int(ps, name) < ps.len(),
    decreases ps.len(),
{
    if ps.len() > 0 {
        lemma_find_int_bound(ps.drop_first(), name);
    }
}

/// The value of the first setting called `name`, or `None` when there is
/// none.
pub fn property_get(properties: &Vec<IntProperty>, name: &str) -> (r: Option<i32>)
    ensures
        ({
            let ps = int_props_view(properties@);
            let i = find_int(ps, name@);
            r == if i >= 0 { Some(ps[i].1) } else { None }
        }),
{
    let ghost ps = int_props_view(properties@);
    let n = name.to_owned();
    let mut i: usize = 0;
    while i < properties.len()
        invariant
            ps == int_props_view(properties@),
            i <= properties@.len(),
            n@ == name@,
            forall|j: int| 0 <= j < i ==> #[trigger] ps[j].0 != name@,
        decreases properties@.len() - i,
    {
        assert(ps[i as int] == properties@[i as int]@);
        if properties[i].name == n {
            proof {
                lemma_find_int_is(ps, name@, i as int);
            }
            return Some(properties[i].value);
        }
        i += 1;
    }
    proof {
        lemma_find_int_is(ps, name@, -1);
    }
    None
}

/// Gives every setting called `name` the value `value`.
pub fn property_set(properties: &mut Vec<IntProperty>, name: &str, value: i32)
    ensures
        int_props_view(final(properties)@) == Seq::new(
            old(properties)@.len(),
            |i: int| if old(properties)@[i]@.0 == name@ { (name@, value) } else { old(properties)@[i]@ },
        ),
{
    let ghost start = int_props_view(properties@);
    let n = name.to_owned();
    let mut i: usize = 0;
    while i < properties.len()
        invariant
            i <= properties@.len(),
            properties@.len() == start.len(),
            n@ == name@,
            start == int_props_view(old(properties)@),
            forall|j: int| 0 <= j < i ==> #[trigger] properties@[j]@ == (if start[j].0 == name@ { (name@, value) } else { start[j] }),
            forall|j: int| i <= j < properties@.len() ==> #[trigger] properties@[j]@ == start[j],
        decreases properties@.len() - i,
    {
        assert(start[i as int] == properties@[i as int]@);
        if properties[i].name == n {
            let p = IntProperty { name: n.clone(), value };
            properties.set(i, p);
        }
        assert(properties@[i as int]@ == (if start[i as int].0 == name@ { (name@, value) } else { start[i as int] }));
        i += 1;
    }
    assert(int_props_view(properties@) =~= Seq::new(
        old(properties)@.len(),
        |i: int| if old(properties)@[i]@.0 == name@ { (name@, value) } else { old(properties)@[i]@ },
    ));
}

/// Setting an integer property and reading it back gives the value set.
pub proof fn lemma_property_set_then_get(ps: Seq<(Seq<char>, i32)>, name: Seq<char>, value: i32)
    requires
        find_int(ps, name) >= 0,
    ensures
        ({
            let after = Seq::new(ps.len(), |i: int| if ps[i].0 == name { (name, value) } else { ps[i] });
            find_int(after, name) == find_int(ps, name) && after[find_int(after, name)].1 == value
        }),
    decreases ps.len(),
{
    let after = Seq::new(ps.len(), |i: int| if ps[i].0 == name { (name, value) } else { ps[i] });
    if ps[0].0 != name {
        let t = ps.drop_first();
        lemma_property_set_then_get(t, name, value);
        let after_t = Seq::new(t.len(), |i: int| if t[i].0 == name { (name, value) } else { t[i] });
        assert(after.drop_first() =~= after_t);
        let k = find_int(after_t, name);
        lemma_find_int_bound(t, name);
        assert(after[k + 1] == after_t[k]);
    }
}

} // verus!
