use vstd::prelude::*;

verus! {

broadcast use vstd::std_specs::vec::group_vec_axioms;

/// The mathematical form of a bound value.
pub ghost enum Value {
    Str(Seq<char>),
    StrArr(Seq<Seq<char>>),
    ObjArr(Seq<Map<Seq<char>, Value>>),
    Sub(Map<Seq<char>, Value>),
    SubRef(Map<Seq<char>, Value>),
}

/// What a value renders as: its text for a string, a fixed marker otherwise.
pub open spec fn display_text(v: Value) -> Seq<char> {
    match v {
        Value::Str(s) => s,
        Value::StrArr(_) => "[string_arr]"@,
        Value::ObjArr(_) => "[object_arr]"@,
        Value::Sub(_) => "[object]"@,
        Value::SubRef(_) => "[object_ref]"@,
    }
}

/// A data item that can bind its own fields into a context.
pub trait TemplateObject {
    /// The bindings that the item contributes: its field names and values.
    /// An impl whose `load_into` binds anything states it here; the default,
    /// no bindings at all, fits an item without fields. Code generic over the
    /// trait never assumes the default.
    open spec fn bindings(&self) -> Map<Seq<char>, Value> {
        Map::empty()
    }

    /// Adds the item's bindings to `ctx`, over any binding of the same name.
    fn load_into<'a>(&'a self, ctx: &mut TemplateContext<'a>)
        ensures
            final(ctx)@ == old(ctx)@.union_prefer_right(self.bindings()),
    ;
}

/// A value bound to a name. Strings and string arrays borrow the caller's text.
pub enum TemplateValue<'a> {
    String(&'a str),
    StringArray(Vec<&'a str>),
    /// The contexts that the bound objects decomposed into, in order. Each
    /// object is decomposed once, when the array is bound, and each loop over
    /// the array reads these contexts; an object whose bindings change after
    /// that is seen as it was when bound.
    ObjectArray(Vec<TemplateContext<'a>>),
    SubContext(TemplateContext<'a>),
    SubContextRef(&'a TemplateContext<'a>),
}

/// A mapping from names to values. A later binding of a name shadows an
/// earlier one, and a derived context sees its parent's bindings under its own.
pub struct TemplateContext<'a> {
    values: Vec<(String, TemplateValue<'a>)>,
    parent: Option<&'a TemplateContext<'a>>,
}

/// The characters of each string in `v`.
pub open spec fn strs_view(v: Seq<&str>) -> Seq<Seq<char>> {
    v.map_values(|x: &str| x@)
}

impl<'a> TemplateValue<'a> {
    pub open spec fn view(&self) -> Value
        decreases self,
    {
        match self {
            TemplateValue::String(s) => Value::Str(s@),
            TemplateValue::StringArray(v) => Value::StrArr(strs_view(v@)),
            TemplateValue::ObjectArray(v) => Value::ObjArr(contexts_view(v@)),
            TemplateValue::SubContext(c) => Value::Sub(c.view()),
            TemplateValue::SubContextRef(c) => Value::SubRef(c.view()),
        }
    }

    pub fn as_str(&self) -> (r: &'a str)
        ensures
            r@ == display_text(self.view()),
    {
        match self {
            TemplateValue::String(val) => val,
            TemplateValue::StringArray(_) => "[string_arr]",
            TemplateValue::ObjectArray(_) => "[object_arr]",
            TemplateValue::SubContext(_) => "[object]",
            TemplateValue::SubContextRef(_) => "[object_ref]",
        }
    }
}

/// The mathematical form of each context in `v`, in order.
pub open spec fn contexts_view<'a>(v: Seq<TemplateContext<'a>>) -> Seq<Map<Seq<char>, Value>>
    decreases v,
{
    if v.len() == 0 {
        Seq::empty()
    } else {
        contexts_view(v.drop_last()).push(v.last().view())
    }
}

pub proof fn lemma_contexts_view<'a>(v: Seq<TemplateContext<'a>>)
    ensures
        contexts_view(v).len() == v.len(),
        forall|j: int| 0 <= j < v.len() ==> #[trigger] contexts_view(v)[j] == v[j].view(),
    decreases v.len(),
{
    if v.len() > 0 {
        lemma_contexts_view(v.drop_last());
    }
}

/// The bindings of `v`, a later entry shadowing an earlier one of the same name.
pub open spec fn entries_view<'a>(v: Seq<(String, TemplateValue<'a>)>) -> Map<Seq<char>, Value>
    decreases v,
{
    if v.len() == 0 {
        Map::empty()
    } else {
        entries_view(v.drop_last()).insert(v.last().0@, v.last().1.view())
    }
}

/// A lookup past the last entry named `k` sees only the entries before it.
proof fn lemma_entries_lookup<'a>(v: Seq<(String, TemplateValue<'a>)>, i: int, k: Seq<char>)
    requires
        0 <= i <= v.len(),
        forall|j: int| i <= j < v.len() ==> v[j].0@ != k,
    ensures
        entries_view(v).contains_key(k) == entries_view(v.take(i)).contains_key(k),
        entries_view(v).contains_key(k) ==> entries_view(v)[k] == entries_view(v.take(i))[k],
    decreases v.len() - i,
{
    if i < v.len() {
        lemma_entries_lookup(v, i + 1, k);
        assert(v.take(i + 1).drop_last() =~= v.take(i));
    } else {
        assert(v.take(i) =~= v);
    }
}

impl<'a> TemplateContext<'a> {
    pub closed spec fn view(&self) -> Map<Seq<char>, Value>
        decreases self,
    {
        match self.parent {
            None => entries_view(self.values@),
            Some(p) => p.view().union_prefer_right(entries_view(self.values@)),
        }
    }

    pub fn new() -> (r: Self)
        ensures
            r@ == Map::<Seq<char>, Value>::empty(),
    {
        let r = TemplateContext { values: Vec::new(), parent: None };
        assert(r.values@.len() == 0);
        assert(entries_view(r.values@) == Map::<Seq<char>, Value>::empty());
        assert(r@ == entries_view(r.values@));
        r
    }

    /// A context that sees every binding of `parent` and holds none of its own.
    pub fn derive(parent: &'a TemplateContext<'a>) -> (r: Self)
        ensures
            r@ == parent@,
    {
        let r = TemplateContext { values: Vec::new(), parent: Some(parent) };
        assert(r.values@.len() == 0);
        assert(entries_view(r.values@) == Map::<Seq<char>, Value>::empty());
        assert(r@ =~= parent@);
        r
    }

    fn bind(&mut self, key: &str, val: TemplateValue<'a>)
        ensures
            final(self)@ == old(self)@.insert(key@, val.view()),
    {
        let ghost before = self.values@;
        let ghost vv = val.view();
        let k = key.to_owned();
        self.values.push((k, val));
        proof {
            assert(self.values@.drop_last() =~= before);
            assert(self.values@.last().0@ == key@);
            assert(self.values@.last().1.view() == vv);
            assert(entries_view(self.values@) == entries_view(before).insert(key@, vv));
            assert(self@ =~= old(self)@.insert(key@, val.view()));
        }
    }

    pub fn set_str(&mut self, key: &str, val: &'a str)
        ensures
            final(self)@ == old(self)@.insert(key@, Value::Str(val@)),
    {
        self.bind(key, TemplateValue::String(val));
    }

    /// Binds `key` to the context that `obj` decomposes into.
    pub fn set_obj<T: TemplateObject>(&mut self, key: &str, obj: &'a T)
        ensures
            final(self)@ == old(self)@.insert(key@, Value::Sub(obj.bindings())),
    {
        let mut sub_context = TemplateContext::new();
        obj.load_into(&mut sub_context);
        assert(sub_context@ =~= obj.bindings());
        self.bind(key, TemplateValue::SubContext(sub_context));
    }

    pub fn set_str_array(&mut self, key: &str, val: &[&'a str])
        ensures
            final(self)@ == old(self)@.insert(key@, Value::StrArr(strs_view(val@))),
    {
        let mut items: Vec<&'a str> = Vec::new();
        let mut i: usize = 0;
        while i < val.len()
            invariant
                i <= val@.len(),
                items@ == val@.take(i as int),
            decreases val@.len() - i,
        {
            items.push(val[i]);
            i = i + 1;
            assert(items@ =~= val@.take(i as int));
        }
        assert(items@ =~= val@);
        self.bind(key, TemplateValue::StringArray(items));
    }

    /// Binds `key` to the contexts that the elements of `val` decompose into, in order.
    pub fn set_obj_array<T: TemplateObject>(&mut self, key: &str, val: &[&'a T])
        ensures
            final(self)@ == old(self)@.insert(
                key@,
                Value::ObjArr(val@.map_values(|o: &'a T| o.bindings())),
            ),
    {
        let mut items: Vec<TemplateContext<'a>> = Vec::new();
        let mut i: usize = 0;
        while i < val.len()
            invariant
                i <= val@.len(),
                contexts_view(items@) == val@.take(i as int).map_values(|o: &'a T| o.bindings()),
            decreases val@.len() - i,
        {
            let mut obj_context = TemplateContext::new();
            val[i].load_into(&mut obj_context);
            assert(obj_context@ =~= val@[i as int].bindings());
            let ghost before = items@;
            items.push(obj_context);
            assert(items@.drop_last() =~= before);
            assert(val@.take(i + 1).map_values(|o: &'a T| o.bindings()) =~= val@.take(i as int).map_values(
                |o: &'a T| o.bindings(),
            ).push(val@[i as int].bindings()));
            i = i + 1;
        }
        assert(val@.take(val@.len() as int) =~= val@);
        self.bind(key, TemplateValue::ObjectArray(items));
    }

    pub fn set_obj_ref(&mut self, key: &str, val: &'a TemplateContext<'a>)
        ensures
            final(self)@ == old(self)@.insert(key@, Value::SubRef(val@)),
    {
        self.bind(key, TemplateValue::SubContextRef(val));
    }

    pub fn get_value(&self, key: &str) -> (r: Option<&TemplateValue<'a>>)
        ensures
            r matches Some(v) ==> self@.contains_key(key@) && v.view() == self@[key@],
            r is None ==> !self@.contains_key(key@),
        decreases self,
    {
        let k = key.to_owned();
        let mut i: usize = self.values.len();
        while i > 0
            invariant
                i <= self.values@.len(),
                k@ == key@,
                forall|j: int| i <= j < self.values@.len() ==> self.values@[j].0@ != key@,
            decreases i,
        {
            let ghost pre = self.values@.take(i as int);
            assert(pre.drop_last() =~= self.values@.take(i - 1));
            proof {
                lemma_entries_lookup(self.values@, i as int, key@);
            }
            if self.values[i - 1].0 == k {
                return Some(&self.values[i - 1].1);
            }
            i = i - 1;
        }
        proof {
            lemma_entries_lookup(self.values@, 0, key@);
            assert(self.values@.take(0) =~= Seq::<(String, TemplateValue<'a>)>::empty());
        }
        match self.parent {
            None => None,
            Some(p) => p.get_value(key),
        }
    }
}

} // verus!
