//! LinOp representation: the nodes of CVXPY's linear expression trees.
use vstd::prelude::*;

verus! {

/// Operation types matching CVXPY's lin_op.py
#[derive(Debug, Clone, Copy, PartialEq, Eq, Hash, Structural)]
pub enum OpType {
    // Leaf nodes
    Variable,
    ScalarConst,
    DenseConst,
    SparseConst,
    Param,

    // Trivial operations
    Sum,
    Neg,
    Reshape,

    // Arithmetic operations
    Mul,
    Rmul,
    MulElem,
    Div,

    // Structural operations
    Index,
    Transpose,
    Promote,
    BroadcastTo,
    Hstack,
    Vstack,
    Concatenate,

    // Specialized operations
    SumEntries,
    Trace,
    DiagVec,
    DiagMat,
    UpperTri,
    Conv,
    KronR,
    KronL,

    // No-op
    NoOp,
}

/// The integer code of an operation type in the serialized format.
pub open spec fn op_index(op: OpType) -> int {
    match op {
        OpType::Variable => 0,
        OpType::ScalarConst => 1,
        OpType::DenseConst => 2,
        OpType::SparseConst => 3,
        OpType::Param => 4,
        OpType::Sum => 5,
        OpType::Neg => 6,
        OpType::Reshape => 7,
        OpType::Mul => 8,
        OpType::Rmul => 9,
        OpType::MulElem => 10,
        OpType::Div => 11,
        OpType::Index => 12,
        OpType::Transpose => 13,
        OpType::Promote => 14,
        OpType::BroadcastTo => 15,
        OpType::Hstack => 16,
        OpType::Vstack => 17,
        OpType::Concatenate => 18,
        OpType::SumEntries => 19,
        OpType::Trace => 20,
        OpType::DiagVec => 21,
        OpType::DiagMat => 22,
        OpType::UpperTri => 23,
        OpType::Conv => 24,
        OpType::KronR => 25,
        OpType::KronL => 26,
        OpType::NoOp => 27,
    }
}

/// The name of an operation type in CVXPY's lin_op.py.
pub open spec fn op_name(op: OpType) -> Seq<char> {
    match op {
        OpType::Variable => "variable"@,
        OpType::ScalarConst => "scalar_const"@,
        OpType::DenseConst => "dense_const"@,
        OpType::SparseConst => "sparse_const"@,
        OpType::Param => "param"@,
        OpType::Sum => "sum"@,
        OpType::Neg => "neg"@,
        OpType::Reshape => "reshape"@,
        OpType::Mul => "mul"@,
        OpType::Rmul => "rmul"@,
        OpType::MulElem => "mul_elem"@,
        OpType::Div => "div"@,
        OpType::Index => "index"@,
        OpType::Transpose => "transpose"@,
        OpType::Promote => "promote"@,
        OpType::BroadcastTo => "broadcast_to"@,
        OpType::Hstack => "hstack"@,
        OpType::Vstack => "vstack"@,
        OpType::Concatenate => "concatenate"@,
        OpType::SumEntries => "sum_entries"@,
        OpType::Trace => "trace"@,
        OpType::DiagVec => "diag_vec"@,
        OpType::DiagMat => "diag_mat"@,
        OpType::UpperTri => "upper_tri"@,
        OpType::Conv => "conv"@,
        OpType::KronR => "kron_r"@,
        OpType::KronL => "kron_l"@,
        OpType::NoOp => "no_op"@,
    }
}

/// Distinct operation types have distinct names, so parsing an operation's
/// name with `OpType::from_str` gives back that operation, the one
/// `OpType::from_int` gives for its index.
pub proof fn lemma_op_names_distinct(a: OpType, b: OpType)
    ensures
        op_name(a) == op_name(b) ==> a == b,
{
    reveal_strlit("variable");
    reveal_strlit("scalar_const");
    reveal_strlit("dense_const");
    reveal_strlit("sparse_const");
    reveal_strlit("param");
    reveal_strlit("sum");
    reveal_strlit("neg");
    reveal_strlit("reshape");
    reveal_strlit("mul");
    reveal_strlit("rmul");
    reveal_strlit("mul_elem");
    reveal_strlit("div");
    reveal_strlit("index");
    reveal_strlit("transpose");
    reveal_strlit("promote");
    reveal_strlit("broadcast_to");
    reveal_strlit("hstack");
    reveal_strlit("vstack");
    reveal_strlit("concatenate");
    reveal_strlit("sum_entries");
    reveal_strlit("trace");
    reveal_strlit("diag_vec");
    reveal_strlit("diag_mat");
    reveal_strlit("upper_tri");
    reveal_strlit("conv");
    reveal_strlit("kron_r");
    reveal_strlit("kron_l");
    reveal_strlit("no_op");
    if op_name(a) == op_name(b) {
        let n = op_name(a);
        assert(n.len() == op_name(b).len());
        assert(n[0] == op_name(b)[0]);
        if n.len() > 1 {
            assert(n[1] == op_name(b)[1]);
        }
        if n.len() > 2 {
            assert(n[2] == op_name(b)[2]);
        }
        if n.len() > 5 {
            assert(n[5] == op_name(b)[5]);
        }
        if n.len() > 7 {
            assert(n[7] == op_name(b)[7]);
        }
    }
}

/// Leaf operations: those without arguments.
pub open spec fn is_leaf_spec(op: OpType) -> bool {
    op == OpType::Variable || op == OpType::ScalarConst || op == OpType::DenseConst
        || op == OpType::SparseConst || op == OpType::Param
}

/// Errors raised while reading LinOp trees or operation names.
#[derive(Debug)]
pub enum LinOpError {
    /// An operation code outside `0..=27`.
    UnknownOpTypeInt(u8),
    /// An operation name that CVXPY does not define.
    UnknownOpType(String),
    /// The serialized node stream ended inside a tree.
    UnexpectedEndOfStream,
    /// A data tag outside `0..=8`.
    UnknownDataTag(u8),
    /// A payload whose offsets leave the float or int buffer.
    BufferOutOfRange,
    /// A node or payload tuple with too few items.
    MissingItem,
    /// A node or payload item of the wrong type or out of range.
    BadValue,
}

/// Whether two string slices hold the same characters, compared one by one.
fn str_eq(a: &str, b: &str) -> (r: bool)
    ensures
        r == (a@ == b@),
{
    let n = a.unicode_len();
    if n != b.unicode_len() {
        return false;
    }
    let mut i: usize = 0;
    while i < n
        invariant
            n == a@.len(),
            n == b@.len(),
            i <= n,
            forall|k: int| 0 <= k < i ==> a@[k] == b@[k],
        decreases n - i,
    {
        if a.get_char(i) != b.get_char(i) {
            return false;
        }
        i = i + 1;
    }
    assert(a@ =~= b@);
    true
}

/// The variant's name, as `Debug` prints it.
pub open spec fn debug_name(op: OpType) -> Seq<char> {
    match op {
        OpType::Variable => "Variable"@,
        OpType::ScalarConst => "ScalarConst"@,
        OpType::DenseConst => "DenseConst"@,
        OpType::SparseConst => "SparseConst"@,
        OpType::Param => "Param"@,
        OpType::Sum => "Sum"@,
        OpType::Neg => "Neg"@,
        OpType::Reshape => "Reshape"@,
        OpType::Mul => "Mul"@,
        OpType::Rmul => "Rmul"@,
        OpType::MulElem => "MulElem"@,
        OpType::Div => "Div"@,
        OpType::Index => "Index"@,
        OpType::Transpose => "Transpose"@,
        OpType::Promote => "Promote"@,
        OpType::BroadcastTo => "BroadcastTo"@,
        OpType::Hstack => "Hstack"@,
        OpType::Vstack => "Vstack"@,
        OpType::Concatenate => "Concatenate"@,
        OpType::SumEntries => "SumEntries"@,
        OpType::Trace => "Trace"@,
        OpType::DiagVec => "DiagVec"@,
        OpType::DiagMat => "DiagMat"@,
        OpType::UpperTri => "UpperTri"@,
        OpType::Conv => "Conv"@,
        OpType::KronR => "KronR"@,
        OpType::KronL => "KronL"@,
        OpType::NoOp => "NoOp"@,
    }
}

impl OpType {
    /// Parse operation type from integer (used by serialized path)
    pub fn from_int(i: u8) -> (r: Result<OpType, LinOpError>)
        ensures
            i <= 27 <==> r is Ok,
            r matches Ok(op) ==> op_index(op) == i,
            r matches Err(e) ==> e == LinOpError::UnknownOpTypeInt(i),
    {
        match i {
            0 => Ok(OpType::Variable),
            1 => Ok(OpType::ScalarConst),
            2 => Ok(OpType::DenseConst),
            3 => Ok(OpType::SparseConst),
            4 => Ok(OpType::Param),
            5 => Ok(OpType::Sum),
            6 => Ok(OpType::Neg),
            7 => Ok(OpType::Reshape),
            8 => Ok(OpType::Mul),
            9 => Ok(OpType::Rmul),
            10 => Ok(OpType::MulElem),
            11 => Ok(OpType::Div),
            12 => Ok(OpType::Index),
            13 => Ok(OpType::Transpose),
            14 => Ok(OpType::Promote),
            15 => Ok(OpType::BroadcastTo),
            16 => Ok(OpType::Hstack),
            17 => Ok(OpType::Vstack),
            18 => Ok(OpType::Concatenate),
            19 => Ok(OpType::SumEntries),
            20 => Ok(OpType::Trace),
            21 => Ok(OpType::DiagVec),
            22 => Ok(OpType::DiagMat),
            23 => Ok(OpType::UpperTri),
            24 => Ok(OpType::Conv),
            25 => Ok(OpType::KronR),
            26 => Ok(OpType::KronL),
            27 => Ok(OpType::NoOp),
            _ => Err(LinOpError::UnknownOpTypeInt(i)),
        }
    }

    /// Parse operation type from its name in CVXPY
    pub fn from_str(s: &str) -> (r: Result<OpType, LinOpError>)
        ensures
            r matches Ok(op) ==> s@ == op_name(op),
            r is Err <==> forall|op: OpType| s@ != #[trigger] op_name(op),
            r matches Err(e) ==> (e matches LinOpError::UnknownOpType(name) && name@ == s@),
    {
        let r =         if str_eq(s, "variable") {
            Ok(OpType::Variable)
        } else if str_eq(s, "scalar_const") {
            Ok(OpType::ScalarConst)
        } else if str_eq(s, "dense_const") {
            Ok(OpType::DenseConst)
        } else if str_eq(s, "sparse_const") {
            Ok(OpType::SparseConst)
        } else if str_eq(s, "param") {
            Ok(OpType::Param)
        } else if str_eq(s, "sum") {
            Ok(OpType::Sum)
        } else if str_eq(s, "neg") {
            Ok(OpType::Neg)
        } else if str_eq(s, "reshape") {
            Ok(OpType::Reshape)
        } else if str_eq(s, "mul") {
            Ok(OpType::Mul)
        } else if str_eq(s, "rmul") {
            Ok(OpType::Rmul)
        } else if str_eq(s, "mul_elem") {
            Ok(OpType::MulElem)
        } else if str_eq(s, "div") {
            Ok(OpType::Div)
        } else if str_eq(s, "index") {
            Ok(OpType::Index)
        } else if str_eq(s, "transpose") {
            Ok(OpType::Transpose)
        } else if str_eq(s, "promote") {
            Ok(OpType::Promote)
        } else if str_eq(s, "broadcast_to") {
            Ok(OpType::BroadcastTo)
        } else if str_eq(s, "hstack") {
            Ok(OpType::Hstack)
        } else if str_eq(s, "vstack") {
            Ok(OpType::Vstack)
        } else if str_eq(s, "concatenate") {
            Ok(OpType::Concatenate)
        } else if str_eq(s, "sum_entries") {
            Ok(OpType::SumEntries)
        } else if str_eq(s, "trace") {
            Ok(OpType::Trace)
        } else if str_eq(s, "diag_vec") {
            Ok(OpType::DiagVec)
        } else if str_eq(s, "diag_mat") {
            Ok(OpType::DiagMat)
        } else if str_eq(s, "upper_tri") {
            Ok(OpType::UpperTri)
        } else if str_eq(s, "conv") {
            Ok(OpType::Conv)
        } else if str_eq(s, "kron_r") {
            Ok(OpType::KronR)
        } else if str_eq(s, "kron_l") {
            Ok(OpType::KronL)
        } else if str_eq(s, "no_op") {
            Ok(OpType::NoOp)
        } else {
            Err(LinOpError::UnknownOpType(s.to_owned()))
        };
        proof {
            if r is Err {
                assert forall|op: OpType| s@ != #[trigger] op_name(op) by {
                    match op {
                        _ => {},
                    }
                }
            } else {
                assert(!(forall|op: OpType| s@ != #[trigger] op_name(op))) by {
                    let op = r->Ok_0;
                    assert(s@ == op_name(op));
                }
            }
        }
        r
    }

    /// Check if this is a leaf node type
    pub fn is_leaf(&self) -> (b: bool)
        ensures
            b == is_leaf_spec(*self),
    {
        match self {
            OpType::Variable | OpType::ScalarConst | OpType::DenseConst | OpType::SparseConst
            | OpType::Param => true,
            _ => false,
        }
    }

    /// The variant name, as `Debug` prints it.
    pub fn name(&self) -> (r: &'static str)
        ensures
            r@ == debug_name(*self),
    {
        match self {
            OpType::Variable => "Variable",
            OpType::ScalarConst => "ScalarConst",
            OpType::DenseConst => "DenseConst",
            OpType::SparseConst => "SparseConst",
            OpType::Param => "Param",
            OpType::Sum => "Sum",
            OpType::Neg => "Neg",
            OpType::Reshape => "Reshape",
            OpType::Mul => "Mul",
            OpType::Rmul => "Rmul",
            OpType::MulElem => "MulElem",
            OpType::Div => "Div",
            OpType::Index => "Index",
            OpType::Transpose => "Transpose",
            OpType::Promote => "Promote",
            OpType::BroadcastTo => "BroadcastTo",
            OpType::Hstack => "Hstack",
            OpType::Vstack => "Vstack",
            OpType::Concatenate => "Concatenate",
            OpType::SumEntries => "SumEntries",
            OpType::Trace => "Trace",
            OpType::DiagVec => "DiagVec",
            OpType::DiagMat => "DiagMat",
            OpType::UpperTri => "UpperTri",
            OpType::Conv => "Conv",
            OpType::KronR => "KronR",
            OpType::KronL => "KronL",
            OpType::NoOp => "NoOp",
        }
    }
}

/// Data associated with a LinOp node
#[derive(Debug)]
#[allow(inconsistent_fields)]
pub enum LinOpData<V> {
    NoData,
    Int(i64),
    Float(V),
    DenseArray { data: Vec<V>, shape: Vec<usize> },
    SparseArray { data: Vec<V>, indices: Vec<i64>, indptr: Vec<i64>, shape: (usize, usize) },
    Slices(Vec<SliceData>),
    LinOpRef(Box<LinOp<V>>),
    /// For sum_entries and transpose: (axis, keepdims) or axis tuple
    AxisData { axis: Option<AxisSpec>, keepdims: bool },
    /// For concatenate: axis
    ConcatAxis(Option<i64>),
}

/// Slice specification (start, stop, step)
#[derive(Debug, Clone, Copy, PartialEq, Eq, Structural)]
pub struct SliceData {
    pub start: i64,
    pub stop: i64,
    pub step: i64,
}

/// Axis specification - can be single axis or tuple of axes
#[derive(Debug)]
pub enum AxisSpec {
    Single(i64),
    Multiple(Vec<i64>),
}

/// A node in the LinOp expression tree
#[derive(Debug)]
pub struct LinOp<V> {
    pub op_type: OpType,
    pub shape: Vec<usize>,
    pub args: Vec<LinOp<V>>,
    pub data: LinOpData<V>,
}

/// Product of the dimensions `s[0..k]`.
pub open spec fn prefix_size(s: Seq<usize>, k: int) -> int
    decreases k,
{
    if k <= 0 {
        1
    } else {
        prefix_size(s, k - 1) * s[k - 1]
    }
}

/// Number of elements of an array of shape `s`.
pub open spec fn shape_size(s: Seq<usize>) -> int {
    prefix_size(s, s.len() as int)
}

/// Every partial product of the dimensions fits in `usize`.
pub open spec fn size_fits(s: Seq<usize>) -> bool {
    forall|k: int| 0 <= k <= s.len() ==> #[trigger] prefix_size(s, k) <= usize::MAX
}

/// Partial products of dimensions are non-negative.
pub proof fn lemma_prefix_size_nonneg(s: Seq<usize>, k: int)
    ensures
        prefix_size(s, k) >= 0,
    decreases k,
{
    if k > 0 {
        lemma_prefix_size_nonneg(s, k - 1);
        let p = prefix_size(s, k - 1);
        let d = s[k - 1] as int;
        assert(p * d >= 0) by (nonlinear_arith)
            requires
                p >= 0,
                d >= 0,
        ;
    }
}

/// The data operand of a node, when it is a LinOp.
pub open spec fn data_op<V>(op: LinOp<V>) -> Option<LinOp<V>> {
    match op.data {
        LinOpData::LinOpRef(inner) => Some(*inner),
        _ => None,
    }
}

/// The tree contains a parameter node (leaves other than `Param` are not
/// searched).
pub open spec fn is_parametric_spec<V>(op: LinOp<V>) -> bool
    decreases op,
{
    match op.op_type {
        OpType::Param => true,
        OpType::Variable | OpType::ScalarConst | OpType::DenseConst | OpType::SparseConst => false,
        _ => {
            (match op.data {
                LinOpData::LinOpRef(inner) => is_parametric_spec(*inner),
                _ => false,
            }) || exists|i: int| 0 <= i < op.args@.len() && is_parametric_spec(#[trigger] op.args@[i])
        },
    }
}

/// Every node's shape has a size that fits in `usize`.
pub open spec fn sizes_fit<V>(op: LinOp<V>) -> bool
    decreases op,
{
    &&& size_fits(op.shape@)
    &&& forall|i: int| 0 <= i < op.args@.len() ==> sizes_fit(#[trigger] op.args@[i])
    &&& match op.data {
        LinOpData::LinOpRef(inner) => sizes_fit(*inner),
        _ => true,
    }
}

/// The product of the dimensions of a shape.
pub fn shape_product(shape: &Vec<usize>) -> (n: usize)
    requires
        size_fits(shape@),
    ensures
        n == shape_size(shape@),
{
    let mut acc: usize = 1;
    let mut k: usize = 0;
    while k < shape.len()
        invariant
            k <= shape@.len(),
            size_fits(shape@),
            acc == prefix_size(shape@, k as int),
        decreases shape@.len() - k,
    {
        assert(prefix_size(shape@, k + 1) == acc * shape@[k as int]);
        assert(prefix_size(shape@, k + 1) <= usize::MAX);
        acc = acc * shape[k];
        k = k + 1;
    }
    acc
}

impl<V> LinOp<V> {
    /// Get the total number of elements in the output
    pub fn size(&self) -> (n: usize)
        requires
            size_fits(self.shape@),
        ensures
            n == shape_size(self.shape@),
    {
        shape_product(&self.shape)
    }

    /// Whether the subtree contains any parameter node (searching the data
    /// operand and the arguments of every node).
    pub fn has_param(&self) -> (b: bool)
        ensures
            b == has_param_spec(*self),
        decreases self,
    {
        if let OpType::Param = self.op_type {
            return true;
        }
        if let LinOpData::LinOpRef(inner) = &self.data {
            if inner.has_param() {
                return true;
            }
        }
        let n = self.args.len();
        let mut i: usize = 0;
        while i < n
            invariant
                i <= n,
                n == self.args@.len(),
                self.op_type != OpType::Param,
                forall|j: int| 0 <= j < i ==> !has_param_spec(#[trigger] self.args@[j]),
                (match self.data {
                    LinOpData::LinOpRef(inner) => !has_param_spec(*inner),
                    _ => true,
                }),
            decreases n - i,
        {
            if self.args[i].has_param() {
                return true;
            }
            i = i + 1;
        }
        false
    }
}

/// The subtree contains a parameter node, in its data operands or its
/// arguments, at any depth.
pub open spec fn has_param_spec<V>(op: LinOp<V>) -> bool
    decreases op,
{
    ||| op.op_type == OpType::Param
    ||| match op.data {
        LinOpData::LinOpRef(inner) => has_param_spec(*inner),
        _ => false,
    }
    ||| exists|i: int| 0 <= i < op.args@.len() && has_param_spec(#[trigger] op.args@[i])
}

/// Check if a LinOp tree contains any parameter nodes
pub fn is_parametric<V>(lin_op: &LinOp<V>) -> (b: bool)
    ensures
        b == is_parametric_spec(*lin_op),
    decreases lin_op,
{
    match lin_op.op_type {
        OpType::Param => true,
        OpType::Variable | OpType::ScalarConst | OpType::DenseConst | OpType::SparseConst => false,
        _ => {
            if let LinOpData::LinOpRef(data_op) = &lin_op.data {
                if is_parametric(data_op) {
                    return true;
                }
            }
            let n = lin_op.args.len();
            let mut i: usize = 0;
            #[verifier::loop_isolation(false)]
            while i < n
                invariant
                    i <= n,
                    n == lin_op.args@.len(),
                    forall|j: int| 0 <= j < i ==> !is_parametric_spec(#[trigger] lin_op.args@[j]),
                decreases n - i,
            {
                if is_parametric(&lin_op.args[i]) {
                    return true;
                }
                i = i + 1;
            }
            false
        },
    }
}

/// Second dimension of an argument's shape (1 when it has fewer than two).
pub open spec fn num_blocks_spec<V>(op: LinOp<V>) -> int {
    if op.args@.len() > 0 {
        if op.args@[0].shape@.len() > 1 {
            op.args@[0].shape@[1] as int
        } else {
            1
        }
    } else {
        1
    }
}

/// The pre-allocation estimate of the number of non-zeros of a tree.
pub open spec fn estimate_spec<V>(op: LinOp<V>) -> int
    decreases op,
{
    let size = shape_size(op.shape@);
    match op.op_type {
        OpType::Variable => size,
        OpType::ScalarConst => 1,
        OpType::DenseConst => size,
        OpType::SparseConst => match op.data {
            LinOpData::SparseArray { data, .. } => data@.len() as int,
            _ => size,
        },
        OpType::Param => size,
        OpType::Neg | OpType::Reshape => if op.args@.len() > 0 {
            estimate_spec(op.args@[0])
        } else {
            0
        },
        OpType::Mul | OpType::Rmul => {
            let data_nnz = match op.data {
                LinOpData::LinOpRef(inner) => estimate_spec(*inner),
                _ => size,
            };
            data_nnz * num_blocks_spec(op)
        },
        OpType::Hstack | OpType::Vstack | OpType::Concatenate => sum_estimates(
            op.args@,
            op.args@.len() as int,
        ),
        OpType::KronR | OpType::KronL => {
            let data_size = match op.data {
                LinOpData::LinOpRef(inner) => shape_size(inner.shape@),
                _ => 1,
            };
            let arg_nnz = if op.args@.len() > 0 {
                estimate_spec(op.args@[0])
            } else {
                1
            };
            data_size * arg_nnz
        },
        _ => {
            let total = sum_estimates(op.args@, op.args@.len() as int);
            if total >= size {
                total
            } else {
                size
            }
        },
    }
}

/// Sum of the estimates of `args[0..k]`.
pub open spec fn sum_estimates<V>(args: Seq<LinOp<V>>, k: int) -> int
    decreases args, k,
{
    if k <= 0 || k > args.len() {
        0
    } else {
        sum_estimates(args, k - 1) + estimate_spec(args[k - 1])
    }
}

/// The estimate of every node, and every size it reads, fits in `usize`.
pub open spec fn estimate_fits<V>(op: LinOp<V>) -> bool
    decreases op,
{
    &&& 0 <= estimate_spec(op) <= usize::MAX
    &&& size_fits(op.shape@)
    &&& forall|i: int| 0 <= i < op.args@.len() ==> estimate_fits(#[trigger] op.args@[i])
    &&& match op.data {
        LinOpData::LinOpRef(inner) => estimate_fits(*inner),
        _ => true,
    }
}

/// Estimates are non-negative; sums of estimates grow with `k`.
pub proof fn lemma_estimate_nonneg<V>(op: LinOp<V>)
    ensures
        estimate_spec(op) >= 0,
        forall|k: int| 0 <= k <= op.args@.len() ==> #[trigger] sum_estimates(op.args@, k) >= 0,
    decreases op,
{
    lemma_prefix_size_nonneg(op.shape@, op.shape@.len() as int);
    assert forall|k: int| 0 <= k <= op.args@.len() implies #[trigger] sum_estimates(op.args@, k) >= 0 by {
        lemma_sum_estimates_nonneg(op, k);
    }
    match op.data {
        LinOpData::LinOpRef(inner) => {
            lemma_estimate_nonneg(*inner);
            lemma_prefix_size_nonneg(inner.shape@, inner.shape@.len() as int);
        },
        _ => {},
    }
    if op.args@.len() > 0 {
        lemma_estimate_nonneg(op.args@[0]);
    }
    let size = shape_size(op.shape@);
    let nb = num_blocks_spec(op);
    let data_nnz = match op.data {
        LinOpData::LinOpRef(inner) => estimate_spec(*inner),
        _ => size,
    };
    assert(data_nnz * nb >= 0) by (nonlinear_arith)
        requires
            data_nnz >= 0,
            nb >= 0,
    ;
    let data_size = match op.data {
        LinOpData::LinOpRef(inner) => shape_size(inner.shape@),
        _ => 1,
    };
    let arg_nnz = if op.args@.len() > 0 {
        estimate_spec(op.args@[0])
    } else {
        1
    };
    assert(data_size * arg_nnz >= 0) by (nonlinear_arith)
        requires
            data_size >= 0,
            arg_nnz >= 0,
    ;
    assert(size >= 0);
    assert(sum_estimates(op.args@, op.args@.len() as int) >= 0);
    assert(op.args@.len() > 0 ==> estimate_spec(op.args@[0]) >= 0);
}

/// Partial sums of estimates are non-negative and grow.
proof fn lemma_sum_estimates_nonneg<V>(op: LinOp<V>, k: int)
    requires
        0 <= k <= op.args@.len(),
    ensures
        sum_estimates(op.args@, k) >= 0,
        forall|j: int| 0 <= j <= k ==> #[trigger] sum_estimates(op.args@, j) <= sum_estimates(op.args@, k),
    decreases op, k,
{
    if k > 0 {
        lemma_sum_estimates_nonneg(op, k - 1);
        lemma_estimate_nonneg(op.args@[k - 1]);
    }
}

impl<V> LinOp<V> {
    /// Estimate the number of non-zeros for pre-allocation
    pub fn estimate_nnz(&self) -> (n: usize)
        requires
            estimate_fits(*self),
        ensures
            n == estimate_spec(*self),
        decreases self,
    {
        proof {
            lemma_estimate_nonneg(*self);
        }
        match self.op_type {
            OpType::Variable => self.size(),
            OpType::ScalarConst => 1,
            OpType::DenseConst => self.size(),
            OpType::SparseConst => {
                if let LinOpData::SparseArray { data, .. } = &self.data {
                    data.len()
                } else {
                    self.size()
                }
            },
            OpType::Param => self.size(),
            OpType::Neg | OpType::Reshape => {
                if self.args.len() > 0 {
                    self.args[0].estimate_nnz()
                } else {
                    0
                }
            },
            OpType::Mul | OpType::Rmul => {
                let data_nnz = match &self.data {
                    LinOpData::LinOpRef(inner) => inner.estimate_nnz(),
                    _ => self.size(),
                };
                let num_blocks = if self.args.len() > 0 {
                    if self.args[0].shape.len() > 1 {
                        self.args[0].shape[1]
                    } else {
                        1
                    }
                } else {
                    1
                };
                assert(data_nnz * num_blocks == estimate_spec(*self));
                data_nnz * num_blocks
            },
            OpType::Hstack | OpType::Vstack | OpType::Concatenate => self.sum_arg_estimates(),
            OpType::KronR | OpType::KronL => {
                let data_size = match &self.data {
                    LinOpData::LinOpRef(inner) => {
                        assert(estimate_fits(**inner));
                        inner.size()
                    },
                    _ => 1,
                };
                let arg_nnz = if self.args.len() > 0 {
                    self.args[0].estimate_nnz()
                } else {
                    1
                };
                assert(data_size * arg_nnz == estimate_spec(*self));
                data_size * arg_nnz
            },
            _ => {
                let total = self.sum_arg_estimates();
                let size = self.size();
                if total >= size {
                    total
                } else {
                    size
                }
            },
        }
    }

    /// Sum of the estimates of the arguments.
    fn sum_arg_estimates(&self) -> (n: usize)
        requires
            estimate_fits(*self),
            sum_estimates(self.args@, self.args@.len() as int) <= usize::MAX,
        ensures
            n == sum_estimates(self.args@, self.args@.len() as int),
        decreases self, 0nat,
    {
        let n = self.args.len();
        proof {
            lemma_sum_estimates_nonneg(*self, n as int);
        }
        let mut acc: usize = 0;
        let mut i: usize = 0;
        while i < n
            invariant
                i <= n,
                n == self.args@.len(),
                estimate_fits(*self),
                acc == sum_estimates(self.args@, i as int),
                sum_estimates(self.args@, n as int) <= usize::MAX,
                forall|j: int| 0 <= j <= n ==> #[trigger] sum_estimates(self.args@, j) <= sum_estimates(self.args@, n as int),
            decreases n - i,
        {
            let e = self.args[i].estimate_nnz();
            assert(sum_estimates(self.args@, i + 1) == acc + e);
            acc = acc + e;
            i = i + 1;
        }
        acc
    }
}

} // verus!
