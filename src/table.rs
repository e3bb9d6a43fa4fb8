use vstd::prelude::*;

verus! {

/// What `str::to_lowercase` makes of a string.
pub uninterp spec fn lowercase_of(s: Seq<char>) -> Seq<char>;

/// Relies on `str::to_lowercase`: the result depends on the characters alone.
#[verifier::external_body]
fn to_lowercase(s: &str) -> (r: String)
    ensures
        r@ == lowercase_of(s@),
{
    s.to_lowercase()
}

/// A table of records under named columns. Column names are kept in lower case;
/// every record has one field per column.
pub struct Csv {
    pub headers: Vec<String>,
    pub records: Vec<Vec<String>>,
}

/// Every record has as many fields as there are columns.
pub open spec fn records_fit(n: nat, records: Seq<Vec<String>>) -> bool {
    forall|i: int| 0 <= i < records.len() ==> (#[trigger] records[i])@.len() == n
}

impl Csv {
    pub open spec fn wf(&self) -> bool {
        records_fit(self.headers@.len(), self.records@)
    }

    /// Some column is named `key`.
    pub open spec fn has_column(&self, key: Seq<char>) -> bool {
        exists|j: int| 0 <= j < self.headers@.len() && (#[trigger] self.headers@[j])@ == key
    }

    /// Some record has a field under the column `key`.
    pub open spec fn has_field(&self, key: Seq<char>) -> bool {
        self.records@.len() > 0 && self.has_column(key)
    }

    /// A table from a header row and its records, with the column names in lower
    /// case; `None` when some record has more or fewer fields than there are columns.
    pub fn new(headers: &Vec<String>, records: Vec<Vec<String>>) -> (r: Option<Csv>)
        ensures
            r is Some <==> records_fit(headers@.len(), records@),
            r is Some ==> {
                let t = r->Some_0;
                &&& t.wf()
                &&& t.records == records
                &&& t.headers@.len() == headers@.len()
                &&& forall|j: int|
                    0 <= j < headers@.len() ==> (#[trigger] t.headers@[j])@ == lowercase_of(
                        headers@[j]@,
                    )
            },
    {
        let mut i: usize = 0;
        while i < records.len()
            invariant
                i <= records@.len(),
                forall|k: int| 0 <= k < i ==> (#[trigger] records@[k])@.len() == headers@.len(),
            decreases records@.len() - i,
        {
            if records[i].len() != headers.len() {
                return None;
            }
            i = i + 1;
        }
        let mut lower: Vec<String> = Vec::new();
        let mut j: usize = 0;
        while j < headers.len()
            invariant
                j <= headers@.len(),
                lower@.len() == j,
                forall|k: int|
                    0 <= k < j ==> (#[trigger] lower@[k])@ == lowercase_of(headers@[k]@),
            decreases headers@.len() - j,
        {
            lower.push(to_lowercase(headers[j].as_str()));
            j = j + 1;
        }
        Some(Csv { headers: lower, records })
    }

    /// The records, in the order of the table.
    pub fn rows(&self) -> (r: &Vec<Vec<String>>)
        ensures
            r == &self.records,
    {
        &self.records
    }

    /// The index of the column named `key`; where several share the name, the last.
    pub fn column(&self, key: &str) -> (r: Option<usize>)
        ensures
            r is None <==> !self.has_column(key@),
            r is Some ==> {
                let c = r->Some_0 as int;
                &&& 0 <= c < self.headers@.len()
                &&& self.headers@[c]@ == key@
                &&& forall|j: int|
                    c < j < self.headers@.len() ==> (#[trigger] self.headers@[j])@ != key@
            },
    {
        let k = key.to_owned();
        let mut j: usize = self.headers.len();
        while j > 0
            invariant
                j <= self.headers@.len(),
                k@ == key@,
                forall|m: int|
                    j <= m < self.headers@.len() ==> (#[trigger] self.headers@[m])@ != key@,
            decreases j,
        {
            if self.headers[j - 1] == k {
                return Some(j - 1);
            }
            j = j - 1;
        }
        None
    }

    /// Whether some record has a field under the column `key`.
    pub fn contains_row(&self, key: &str) -> (r: bool)
        requires
            self.wf(),
        ensures
            r == self.has_field(key@),
    {
        self.records.len() > 0 && self.column(key).is_some()
    }

    /// Whether every one of `keys` names a column under which some record has a field.
    pub fn contains_rows(&self, keys: &[&str]) -> (r: bool)
        requires
            self.wf(),
        ensures
            r == forall|i: int| 0 <= i < keys@.len() ==> self.has_field((#[trigger] keys@[i])@),
    {
        let mut i: usize = 0;
        while i < keys.len()
            invariant
                self.wf(),
                i <= keys@.len(),
                forall|m: int| 0 <= m < i ==> self.has_field((#[trigger] keys@[m])@),
            decreases keys@.len() - i,
        {
            if !self.contains_row(keys[i]) {
                return false;
            }
            i = i + 1;
        }
        true
    }
}

} // verus!
